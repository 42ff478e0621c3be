use sorbe_tpl::{
    BlockToken, ConfigSource, SingleToken, SymbolChar, Token, TokenError, TokenResult,
};

fn chars(text: &str) -> Vec<char> {
    text.chars().collect()
}

#[test]
fn test_classify_char() {
    let source = ConfigSource::new("".to_string());
    assert_eq!(source.classify_char('='), TokenResult::Single(Token::Separator));
    assert_eq!(source.classify_char('.'), TokenResult::Single(Token::Dot));
    assert_eq!(source.classify_char('\n'), TokenResult::Single(Token::Newline));
    assert_eq!(source.classify_char('"'), TokenResult::NeedsBlock('"'));
    assert_eq!(source.classify_char('\''), TokenResult::NeedsBlock('\''));
    assert_eq!(source.classify_char('#'), TokenResult::Comment);
    assert_eq!(source.classify_char('a'), TokenResult::NeedsBlock('a'));
    assert_eq!(source.classify_char('_'), TokenResult::NeedsBlock('_'));
}

#[test]
fn test_process_block_token() {
    let source = ConfigSource::new("".to_string());
    let (token, _) = source.process_block_token(&chars("\"Hello World\""), 0).unwrap();
    assert_eq!(token, Token::QuotedIdent("Hello World".to_string()));
    let (token, _) = source.process_block_token(&chars(r#""Hello\nWorld""#), 0).unwrap();
    assert_eq!(token, Token::QuotedIdent("Hello\nWorld".to_string()));
    let (token, _) = source.process_block_token(&chars("'Hello World'"), 0).unwrap();
    assert_eq!(token, Token::QuotedIdent("Hello World".to_string()));
    let (token, _) = source.process_block_token(&chars(r#"'Hello\nWorld'"#), 0).unwrap();
    assert_eq!(token, Token::QuotedIdent("Hello\\nWorld".to_string()));
    let (token, _) = source.process_block_token(&chars("Identifier"), 0).unwrap();
    assert_eq!(token, Token::Ident("Identifier".to_string()));
    let (token, _) = source.process_block_token(&chars("Identifier with space"), 0).unwrap();
    assert_eq!(token, Token::Ident("Identifier".to_string()));
    let (token, _) = source.process_block_token(&chars("Identifier.with.dot"), 0).unwrap();
    assert_eq!(token, Token::Ident("Identifier".to_string()));
    let (token, _) = source.process_block_token(&chars("Identifier=with=equals"), 0).unwrap();
    assert_eq!(token, Token::Ident("Identifier".to_string()));
}

#[test]
fn escapes_in_double_quotes() {
    let source = ConfigSource::new("".to_string());
    let (token, next) = source.process_block_token(&chars(r#""a\tb\\c\"d\'e\0f\qg" x"#), 0).unwrap();
    assert_eq!(token, Token::QuotedIdent("a\tb\\c\"d'e\0f\\qg".to_string()));
    assert_eq!(next, 21);
    let result = source.process_block_token(&chars("\"ab\ncd\""), 0);
    assert_eq!(result.unwrap_err().message(), "Unterminated string literal");
}

#[test]
fn test_symbol_char_from_char() {
    assert!(SymbolChar::try_from('a').is_ok());
    assert!(SymbolChar::try_from('=').is_ok());
    assert!(SymbolChar::try_from('.').is_ok());
    assert!(SymbolChar::try_from('\'').is_ok());
    assert!(SymbolChar::try_from('\n').is_ok());
    assert!(SymbolChar::try_from('"').is_ok());
    assert!(SymbolChar::try_from('#').is_ok());
    assert!(SymbolChar::try_from(' ').is_err());
    assert!(SymbolChar::try_from('あ').is_err());
    assert!(SymbolChar::try_from('[').is_err());
    assert!(SymbolChar::try_from(']').is_err());
}

#[test]
fn symbol_chars_forbid_colon() {
    assert!(SymbolChar::is_invalid_chars(':'));
    assert!(SymbolChar::is_invalid_chars(';'));
    assert!(!SymbolChar::is_invalid_chars('-'));
    assert!(matches!(SymbolChar::try_from(':'), Err(TokenError::InvalidChar(':'))));
    let text = chars("a:b = 1");
    let symbol = SymbolChar::try_from('a').unwrap();
    assert!(matches!(symbol.emit_token(&text, 0), Err(TokenError::InvalidChar(':'))));
}

#[test]
fn test_single_token_from_symbol() {
    assert_eq!(SingleToken::from_symbol('='), Some(SingleToken::Equal));
    assert_eq!(SingleToken::from_symbol('.'), Some(SingleToken::Dot));
}

#[test]
fn test_block_token_from_start_char() {
    assert_eq!(BlockToken::from_start_char('a'), Some(BlockToken::Ident('a')));
    assert_eq!(BlockToken::from_start_char('\''), Some(BlockToken::SingleQuoteIdent));
    assert_eq!(BlockToken::from_start_char('"'), Some(BlockToken::DoubleQuoteIdent));
    assert_eq!(BlockToken::from_start_char('#'), Some(BlockToken::Comment));
    assert_eq!(BlockToken::from_start_char(' '), None);
}

#[test]
fn symbol_emits_tokens() {
    let text = chars("key # note\n");
    let symbol = SymbolChar::try_from('k').unwrap();
    let (token, next) = symbol.emit_token(&text, 0).unwrap();
    assert_eq!(token, Some(Token::Ident("key".to_string())));
    assert_eq!(next, 3);
    let comment = SymbolChar::try_from('#').unwrap();
    assert_eq!(comment.emit_token(&text, 4).unwrap(), (None, 10));
    let newline = SymbolChar::try_from('\n').unwrap();
    assert_eq!(newline.emit_token(&text, 10).unwrap(), (Some(Token::Newline), 11));
    assert_eq!(SingleToken::chars(), ('=', '.'));
    assert_eq!(SingleToken::Equal.to_token(), Token::Separator);
    assert_eq!(BlockToken::Ident('z').as_char(), 'z');
}
