use sorbe_tpl::{
    from_schema, from_str_with_schema, parse_config, ConfigValidationError, ConfigValidator,
    Error, Float, Number, Parse, ParseError, Parser, Schema, SchemaParser, SyntaxValidationError,
    Token, TokenError, Value,
};

fn entry<T>(k: &str, v: T) -> (String, T) {
    (k.to_string(), v)
}

#[test]
fn test_valid_config() {
    let config_content = r#"
            server.host = localhost
            server.port = 8080
            database.enabled = true
            database.max_connections = 100
        "#;
    let result = parse_config(config_content);
    assert!(result.is_ok());
    let config: Value = result.unwrap();
    let expected = Value::Dict(vec![
        entry(
            "server",
            Value::Dict(vec![
                entry("host", Value::String("localhost".into())),
                entry("port", Value::Number(Number::UInt(8080))),
            ]),
        ),
        entry(
            "database",
            Value::Dict(vec![
                entry("enabled", Value::Bool(true)),
                entry("max_connections", Value::Number(Number::UInt(100))),
            ]),
        ),
    ]);
    assert_eq!(config, expected);
}

#[test]
fn test_complete_config_validation() {
    let config_content = r#"
            server.host = localhost
            server.port = 8080
            database.enabled = true
            database.max_connections = 100
        "#;
    let schema_content = r#"
            server.host: string
            server.port: integer
            database.enabled: bool
            database.max_connections: unsigned_integer
        "#;
    let result = from_str_with_schema(config_content, schema_content);
    assert!(result.is_ok());
    let expected = Value::Dict(vec![
        entry(
            "server",
            Value::Dict(vec![
                entry("host", Value::String("localhost".into())),
                entry("port", Value::Number(Number::Int(8080))),
            ]),
        ),
        entry(
            "database",
            Value::Dict(vec![
                entry("enabled", Value::Bool(true)),
                entry("max_connections", Value::Number(Number::UInt(100))),
            ]),
        ),
    ]);
    assert_eq!(result.unwrap(), expected);
}

#[test]
fn integration_test_test_invalid_syntax() {
    let config_content = r#"
            server.host = localhost
            server.port = 8080
            database.enabled = true
            database.max_connections = 100
            invalid_syntax
        "#;
    let result: Result<Value, Error> = parse_config(config_content);
    assert!(result.is_err());
}

#[test]
fn test_invalid_config_missing_field() {
    let config_content = r#"
            server.host = localhost
            database.enabled = true
        "#;
    let schema_content = r#"
            server.host: string
            server.port: integer
            database.enabled: bool
            database.max_connections: unsigned_integer
        "#;
    let result = from_str_with_schema(config_content, schema_content);
    assert!(matches!(result, Err(Error::MissingKey { key }) if key == "port"));
}

#[test]
fn test_invalid_config_type_mismatch() {
    let config_content = r#"
            server.host = localhost
            server.port = "not_a_number"
        "#;
    let schema_content = r#"
            server.host: string
            server.port: integer
        "#;
    let result = from_str_with_schema(config_content, schema_content);
    assert!(matches!(result, Err(Error::TypeMismatch { .. })));
}

#[test]
fn quoted_value_is_a_string() {
    let value = parse_config("key=\"value\"").unwrap();
    assert_eq!(value, Value::Dict(vec![entry("key", Value::String("value".into()))]));
}

#[test]
fn scalar_values_are_typed() {
    let value = parse_config("a=42\nb=-42\nc=1.5\nd=true\ne=\nf=word").unwrap();
    let expected = Value::Dict(vec![
        entry("a", Value::Number(Number::UInt(42))),
        entry("b", Value::Number(Number::Int(-42))),
        entry("c", Value::Number(Number::Float(Float::parse("1.5").unwrap()))),
        entry("d", Value::Bool(true)),
        entry("e", Value::String("".into())),
        entry("f", Value::String("word".into())),
    ]);
    assert_eq!(value, expected);
}

#[test]
fn dotted_keys_nest() {
    let value = parse_config("a.b=1\na.c=2").unwrap();
    let expected = Value::Dict(vec![entry(
        "a",
        Value::Dict(vec![
            entry("b", Value::Number(Number::UInt(1))),
            entry("c", Value::Number(Number::UInt(2))),
        ]),
    )]);
    assert_eq!(value, expected);
}

#[test]
fn leaf_then_branch_is_a_conflict() {
    let result = parse_config("a=1\na.b=2");
    assert!(matches!(
        result,
        Err(Error::Parse(ParseError::Syntax(SyntaxValidationError::KeyPathConflict { key }))) if key == "a"
    ));
}

#[test]
fn repeated_key_is_a_duplicate() {
    let result = parse_config("a=1\na=2");
    assert!(matches!(
        result,
        Err(Error::Parse(ParseError::Syntax(SyntaxValidationError::Duplicate { key }))) if key == "a"
    ));
}

#[test]
fn integer_schema_narrows_unsigned() {
    let result = from_str_with_schema("port=8080", "port: integer").unwrap();
    assert_eq!(result, Value::Dict(vec![entry("port", Value::Number(Number::Int(8080)))]));
}

#[test]
fn string_schema_rejects_bool() {
    let result = from_str_with_schema("x=true", "x: string");
    assert!(matches!(
        result,
        Err(Error::TypeMismatch { expected, found }) if expected == "string" && found == "true"
    ));
}

#[test]
fn unterminated_quote_fails() {
    let result = parse_config("key='value");
    assert!(matches!(result, Err(Error::Lexer(TokenError::UnterminatedString))));
}

#[test]
fn at_sign_is_invalid() {
    let result = parse_config("@key=value");
    assert!(matches!(result, Err(Error::Lexer(TokenError::InvalidChar('@')))));
}

#[test]
fn same_text_same_result() {
    let text = "a.b = 1\n# comment\nc = 'x'\n";
    assert_eq!(parse_config(text).unwrap(), parse_config(text).unwrap());
    let bad = "a = 1 2";
    let first = format!("{:?}", parse_config(bad).unwrap_err());
    let second = format!("{:?}", parse_config(bad).unwrap_err());
    assert_eq!(first, second);
}

#[test]
fn one_statement_per_filled_line() {
    let text = "\n# only a comment\n  a = 1\n\n b.c = x # trailing\n   \t\nd = \"q\"\n";
    let syntax = sorbe_tpl::api::read_statements::<sorbe_tpl::ConfigSource, sorbe_tpl::ConfigRule>(
        sorbe_tpl::ConfigSource::new(text.to_string()),
    )
    .unwrap();
    assert_eq!(syntax.patterns.len(), 3);
}

#[test]
fn schema_document() {
    let schema = from_schema("a: string\nb.c: integer?\n# note\nb.d: float").unwrap();
    let expected = Schema::Dict(vec![
        entry("a", Schema::String),
        entry(
            "b",
            Schema::Dict(vec![
                entry("c", Schema::Optional(Box::new(Schema::Integer))),
                entry("d", Schema::Float),
            ]),
        ),
    ]);
    assert_eq!(schema, expected);
}

#[test]
fn schema_document_errors() {
    assert!(matches!(
        from_schema("a: number"),
        Err(Error::Parse(ParseError::Syntax(SyntaxValidationError::UnknownType { symbol }))) if symbol == "number"
    ));
    assert!(matches!(from_schema("a: \"string\""), Err(Error::Lexer(TokenError::InvalidChar('"')))));
    assert!(matches!(from_schema("a = string"), Err(Error::Lexer(TokenError::InvalidChar('=')))));
}

#[test]
fn declared_paths_are_checked() {
    let paths = |ps: &[&[&str]]| -> Vec<Vec<String>> {
        ps.iter().map(|p| p.iter().map(|s| s.to_string()).collect()).collect()
    };
    assert!(ConfigValidator::validate(&paths(&[&["a", "b"], &["a", "c"]])).is_ok());
    assert!(matches!(
        ConfigValidator::validate(&paths(&[&["a", "b"], &["a", "b"]])),
        Err(ConfigValidationError::Duplicate { key }) if key == "a.b"
    ));
    assert!(matches!(
        ConfigValidator::validate(&paths(&[&["a", "b", "c"], &["a", "b"]])),
        Err(ConfigValidationError::KeyPathConflict { key }) if key == "a.b"
    ));
}

#[test]
fn parse_token_streams() {
    let tokens = vec![
        Token::Ident("a".to_string()),
        Token::Separator,
        Token::Ident("1".to_string()),
        Token::Dot,
        Token::Ident("5".to_string()),
        Token::Eof,
    ];
    let value: Value = <Parser as Parse<Value>>::parse(tokens).unwrap();
    assert_eq!(
        value,
        Value::Dict(vec![entry("a", Value::Number(Number::Float(Float::parse("1.5").unwrap())))])
    );
    let tokens = vec![
        Token::Ident("a".to_string()),
        Token::Separator,
        Token::Ident("bool".to_string()),
        Token::Eof,
    ];
    let schema = SchemaParser::parse(tokens).unwrap();
    assert_eq!(schema, Schema::Dict(vec![entry("a", Schema::Bool)]));
}
