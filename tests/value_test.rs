use sorbe_tpl::{
    cast, cast_as_integer, cast_as_unsigned_integer, validate, validate_and_cast, DictLike, Error,
    Float, Number, Parser, Pattern, Schema, Syntax, SyntaxValue, Value,
};

fn float(text: &str) -> Number {
    Number::Float(Float::parse(text).unwrap())
}

fn entry<T>(k: &str, v: T) -> (String, T) {
    (k.to_string(), v)
}

fn pattern(key: &[&str], value: SyntaxValue) -> Pattern {
    Pattern { key_parts: key.iter().map(|k| k.to_string()).collect(), value }
}

#[test]
fn test_value_from_plain_string() {
    assert_eq!(Value::from_plain_string("true".to_string()), Value::Bool(true));
    assert_eq!(Value::from_plain_string("false".to_string()), Value::Bool(false));
    assert_eq!(Value::from_plain_string("123".to_string()), Value::Number(Number::UInt(123)));
    assert_eq!(Value::from_plain_string("-123".to_string()), Value::Number(Number::Int(-123)));
    assert_eq!(Value::from_plain_string("123.45".to_string()), Value::Number(float("123.45")));
    assert_eq!(Value::from_plain_string("0".to_string()), Value::Number(Number::UInt(0)));
    assert_eq!(Value::from_plain_string(".42".to_string()), Value::Number(float(".42")));
    assert_eq!(Value::from_plain_string("-1.234".to_string()), Value::Number(float("-1.234")));
    assert_eq!(Value::from_plain_string("hello".to_string()), Value::String("hello".to_string()));
    assert_eq!(Value::from_plain_string("".to_string()), Value::String("".to_string()));
}

#[test]
fn inference_limits_of_integers() {
    assert_eq!(
        Value::from_plain_string("18446744073709551615".to_string()),
        Value::Number(Number::UInt(u64::MAX))
    );
    assert_eq!(
        Value::from_plain_string("18446744073709551616".to_string()),
        Value::String("18446744073709551616".to_string())
    );
    assert_eq!(
        Value::from_plain_string("-9223372036854775808".to_string()),
        Value::Number(Number::Int(i64::MIN))
    );
    assert_eq!(
        Value::from_plain_string("-9223372036854775809".to_string()),
        Value::String("-9223372036854775809".to_string())
    );
    assert_eq!(Value::from_plain_string("+7".to_string()), Value::Number(Number::UInt(7)));
    assert_eq!(Value::from_plain_string("1.2.3".to_string()), Value::String("1.2.3".to_string()));
    assert_eq!(Value::from_plain_string("True".to_string()), Value::String("True".to_string()));
}

#[test]
fn float_parse_rejects_non_numbers() {
    assert!(Float::parse("abc").is_none());
    assert!(Float::parse(".").is_none());
    assert!(Float::parse("").is_none());
    assert!(Float::parse("1.5").is_some());
    assert!(Float::parse("5.").is_some());
}

#[test]
fn test_syntax_value_from() {
    let from = |v: SyntaxValue| -> Value { <Value as DictLike>::from_syntax(&v).unwrap() };
    assert_eq!(from(SyntaxValue::Plain("true".into())), Value::Bool(true));
    assert_eq!(from(SyntaxValue::Plain("42".into())), Value::Number(Number::UInt(42)));
    assert_eq!(from(SyntaxValue::Plain(".42".into())), Value::Number(float(".42")));
    assert_eq!(from(SyntaxValue::Plain("-42".into())), Value::Number(Number::Int(-42)));
    assert_eq!(
        from(SyntaxValue::Quoted("quoted string".into())),
        Value::String("quoted string".into())
    );
}

#[test]
fn test_syntax_value_schema_type_from() {
    let result = <Schema as DictLike>::from_syntax(&SyntaxValue::Plain("bool".into())).unwrap();
    assert_eq!(result, Schema::Bool);
    let result =
        <Schema as DictLike>::from_syntax(&SyntaxValue::Plain("integer?".into())).unwrap();
    assert_eq!(result, Schema::Optional(Box::new(Schema::Integer)));
}

#[test]
fn schema_symbols() {
    assert_eq!(Schema::from_symbol("unsigned_integer"), Some(Schema::UnsignedInteger));
    assert_eq!(Schema::from_symbol("float?"), Some(Schema::Optional(Box::new(Schema::Float))));
    assert_eq!(Schema::from_symbol("string"), Some(Schema::String));
    assert_eq!(Schema::from_symbol("integer??"), None);
    assert_eq!(Schema::from_symbol("number"), None);
    assert_eq!(Schema::from_symbol("?"), None);
    assert!(<Schema as DictLike>::from_syntax(&SyntaxValue::Quoted("string".into())).is_none());
    assert!(<Schema as DictLike>::from_syntax(&SyntaxValue::Plain("invalid_type".into())).is_none());
}

#[test]
fn test_simple_syntax() {
    let syntax = Syntax {
        patterns: vec![
            pattern(&["a"], SyntaxValue::Quoted("value1".into())),
            pattern(&["b"], SyntaxValue::Quoted("value2".into())),
        ],
    };
    let result: Value = Parser::convert_to(syntax).unwrap();
    let expected = vec![
        entry("a", Value::String("value1".to_string())),
        entry("b", Value::String("value2".to_string())),
    ];
    assert_eq!(result, Value::Dict(expected));
}

#[test]
fn test_nested_syntax() {
    let syntax = Syntax {
        patterns: vec![
            pattern(&["a", "b"], SyntaxValue::Quoted("value1".into())),
            pattern(&["a", "c"], SyntaxValue::Quoted("value2".into())),
            pattern(&["d"], SyntaxValue::Quoted("value3".into())),
        ],
    };
    let result: Value = Parser::convert_to(syntax).unwrap();
    let expected = vec![
        entry(
            "a",
            Value::Dict(vec![
                entry("b", Value::String("value1".to_string())),
                entry("c", Value::String("value2".to_string())),
            ]),
        ),
        entry("d", Value::String("value3".to_string())),
    ];
    assert_eq!(result, Value::Dict(expected));
}

#[test]
fn test_deep_nested_syntax() {
    let syntax = Syntax {
        patterns: vec![
            pattern(&["a", "b", "c"], SyntaxValue::Quoted("value1".into())),
            pattern(&["a", "b", "d"], SyntaxValue::Quoted("value2".into())),
            pattern(&["e"], SyntaxValue::Quoted("value3".into())),
        ],
    };
    let result: Value = Parser::convert_to(syntax).unwrap();
    let expected = vec![
        entry(
            "a",
            Value::Dict(vec![entry(
                "b",
                Value::Dict(vec![
                    entry("c", Value::String("value1".to_string())),
                    entry("d", Value::String("value2".to_string())),
                ]),
            )]),
        ),
        entry("e", Value::String("value3".to_string())),
    ];
    assert_eq!(result, Value::Dict(expected));
}

#[test]
fn parse_impl_test_simple_syntax() {
    let syntax = Syntax {
        patterns: vec![
            pattern(&["a"], SyntaxValue::Plain("string".into())),
            pattern(&["b"], SyntaxValue::Plain("string".into())),
        ],
    };
    let result: Schema = Parser::convert_to(syntax).unwrap();
    let expected = vec![entry("a", Schema::String), entry("b", Schema::String)];
    assert_eq!(result, Schema::Dict(expected));
}

#[test]
fn parse_impl_test_nested_syntax() {
    let syntax = Syntax {
        patterns: vec![
            pattern(&["a", "b"], SyntaxValue::Plain("string".into())),
            pattern(&["a", "c"], SyntaxValue::Plain("string".into())),
            pattern(&["d"], SyntaxValue::Plain("string".into())),
        ],
    };
    let result: Schema = Parser::convert_to(syntax).unwrap();
    let expected = vec![
        entry("a", Schema::Dict(vec![entry("b", Schema::String), entry("c", Schema::String)])),
        entry("d", Schema::String),
    ];
    assert_eq!(result, Schema::Dict(expected));
}

#[test]
fn convert_rejects_unknown_type_symbol() {
    let syntax = Syntax { patterns: vec![pattern(&["a"], SyntaxValue::Plain("number".into()))] };
    let result: Result<Schema, _> = Parser::convert_to(syntax);
    assert!(matches!(
        result,
        Err(sorbe_tpl::ParseError::Syntax(sorbe_tpl::SyntaxValidationError::UnknownType { symbol }))
            if symbol == "number"
    ));
}

#[test]
fn test_cast_as_integer() {
    assert_eq!(cast_as_integer(&Number::Int(42)), Value::Number(Number::Int(42)));
    assert_eq!(cast_as_integer(&Number::UInt(42)), Value::Number(Number::Int(42)));
    assert_eq!(cast_as_integer(&float("42.0")), Value::Number(Number::Int(42)));
}

#[test]
fn test_cast_as_unsigned_integer() {
    assert_eq!(cast_as_unsigned_integer(&Number::Int(42)), Value::Number(Number::UInt(42)));
    assert_eq!(cast_as_unsigned_integer(&Number::UInt(42)), Value::Number(Number::UInt(42)));
    assert_eq!(cast_as_unsigned_integer(&float("42.0")), Value::Number(Number::UInt(42)));
}

#[test]
fn cast_truncates_and_reinterprets() {
    assert_eq!(cast_as_integer(&float("-2.75")), Value::Number(Number::Int(-2)));
    assert_eq!(cast_as_integer(&float("99999999999999999999.5")), Value::Number(Number::Int(i64::MAX)));
    assert_eq!(cast_as_unsigned_integer(&float("-2.75")), Value::Number(Number::UInt(0)));
    assert_eq!(cast_as_unsigned_integer(&Number::Int(-1)), Value::Number(Number::UInt(u64::MAX)));
    assert_eq!(cast_as_integer(&Number::UInt(u64::MAX)), Value::Number(Number::Int(-1)));
}

#[test]
fn test_cast_with_schema() {
    let value = Value::Number(Number::UInt(42));
    assert_eq!(cast(&value, &Schema::Integer), Value::Number(Number::Int(42)));
}

#[test]
fn test_cast_optional() {
    let value = Value::Number(Number::UInt(42));
    let schema = Schema::Optional(Box::new(Schema::Integer));
    assert_eq!(cast(&value, &schema), Value::Number(Number::Int(42)));
}

#[test]
fn test_cast_no_change() {
    let value = Value::String("hello".into());
    assert_eq!(cast(&value, &Schema::String), value);
}

#[test]
fn test_cast_dict() {
    let value = Value::Dict(vec![entry("port", Value::Number(Number::UInt(8080)))]);
    let schema = Schema::Dict(vec![entry("port", Schema::Integer)]);
    let result = cast(&value, &schema);
    assert_eq!(result, Value::Dict(vec![entry("port", Value::Number(Number::Int(8080)))]));
}

#[test]
fn test_validate_string() {
    assert!(validate(&Value::String("Hello".into()), &Schema::String).is_ok());
}

#[test]
fn test_validate_integer() {
    let schema = Schema::Integer;
    assert!(validate(&Value::Number(Number::Int(42)), &schema).is_ok());
    assert!(validate(&Value::Number(Number::Int(-42)), &schema).is_ok());
    assert!(validate(&Value::Number(float("42.0")), &schema).is_ok());
    assert!(validate(&Value::Number(Number::UInt(42)), &schema).is_ok());
}

#[test]
fn test_validate_unsigned_integer() {
    let schema = Schema::UnsignedInteger;
    assert!(validate(&Value::Number(Number::UInt(42)), &schema).is_ok());
    assert!(validate(&Value::Number(Number::Int(42)), &schema).is_ok());
    assert!(validate(&Value::Number(float("42.0")), &schema).is_ok());
}

#[test]
fn test_validate_float() {
    let schema = Schema::Float;
    assert!(validate(&Value::Number(float("1.23")), &schema).is_ok());
    assert!(validate(&Value::Number(float("-1.23")), &schema).is_ok());
    assert!(validate(&Value::Number(Number::Int(1)), &schema).is_err());
    assert!(validate(&Value::Number(Number::Int(-1)), &schema).is_err());
    assert!(validate(&Value::Number(Number::UInt(1)), &schema).is_err());
}

#[test]
fn test_validate_bool() {
    assert!(validate(&Value::Bool(true), &Schema::Bool).is_ok());
    assert!(validate(&Value::Bool(false), &Schema::Bool).is_ok());
}

#[test]
fn test_validate_optional() {
    let schema = Schema::Optional(Box::new(Schema::String));
    assert!(validate(&Value::Null, &schema).is_ok());
    assert!(validate(&Value::String("hello".into()), &schema).is_ok());
}

#[test]
fn test_validate_simple_dict() {
    let value = Value::Dict(vec![
        entry("key1", Value::String("value1".into())),
        entry("key2", Value::Number(Number::Int(10))),
    ]);
    let schema = Schema::Dict(vec![entry("key1", Schema::String), entry("key2", Schema::Integer)]);
    assert!(validate(&value, &schema).is_ok());
}

#[test]
fn test_validate_nested_dict() {
    let value = Value::Dict(vec![
        entry(
            "user",
            Value::Dict(vec![
                entry("name", Value::String("John".into())),
                entry("age", Value::Number(Number::UInt(25))),
            ]),
        ),
        entry("active", Value::Bool(true)),
    ]);
    let schema = Schema::Dict(vec![
        entry(
            "user",
            Schema::Dict(vec![entry("name", Schema::String), entry("age", Schema::UnsignedInteger)]),
        ),
        entry("active", Schema::Bool),
    ]);
    assert!(validate(&value, &schema).is_ok());
}

#[test]
fn test_validate_string_with_integer() {
    assert!(validate(&Value::Number(Number::Int(42)), &Schema::String).is_err());
}

#[test]
fn test_validate_integer_with_string() {
    assert!(validate(&Value::String("Hello".into()), &Schema::Integer).is_err());
}

#[test]
fn test_validate_number_with_float() {
    assert!(validate(&Value::Number(float("1.23")), &Schema::Integer).is_err());
}

#[test]
fn test_validate_unsigned_integer_with_negative_integer() {
    assert!(validate(&Value::Number(Number::Int(-42)), &Schema::UnsignedInteger).is_err());
}

#[test]
fn test_validate_unsigned_integer_with_negative_float() {
    assert!(validate(&Value::Number(float("-1.5")), &Schema::UnsignedInteger).is_err());
}

#[test]
fn test_validate_bool_with_string() {
    assert!(validate(&Value::String("true".into()), &Schema::Bool).is_err());
}

#[test]
fn test_validate_optional_type_mismatch() {
    let schema = Schema::Optional(Box::new(Schema::Integer));
    assert!(validate(&Value::String("hello".into()), &schema).is_err());
}

#[test]
fn test_validate_missing_key() {
    let value = Value::Dict(vec![entry("key1", Value::String("value1".into()))]);
    let schema = Schema::Dict(vec![entry("key1", Schema::String), entry("key2", Schema::Integer)]);
    let result = validate(&value, &schema);
    assert!(result.is_err());
    assert!(matches!(result, Err(Error::MissingKey { key }) if key == "key2"));
}

#[test]
fn test_validate_unknown_key() {
    let value = Value::Dict(vec![
        entry("key1", Value::String("value1".into())),
        entry("key2", Value::Number(Number::Int(10))),
    ]);
    let schema = Schema::Dict(vec![entry("key1", Schema::String)]);
    let result = validate(&value, &schema);
    assert!(result.is_err());
    assert!(matches!(result, Err(Error::UnknownKey { key }) if key == "key2"));
}

#[test]
fn test_validate_nested_dict_type_mismatch() {
    let value = Value::Dict(vec![entry(
        "user",
        Value::Dict(vec![entry("name", Value::Number(Number::Int(123)))]),
    )]);
    let schema = Schema::Dict(vec![entry("user", Schema::Dict(vec![entry("name", Schema::String)]))]);
    assert!(validate(&value, &schema).is_err());
}

#[test]
fn mismatch_names_expected_and_found() {
    let result = validate(&Value::Null, &Schema::Optional(Box::new(Schema::Integer)));
    assert!(result.is_ok());
    let result = validate(&Value::Bool(true), &Schema::Optional(Box::new(Schema::Integer)));
    assert!(matches!(
        result,
        Err(Error::TypeMismatch { expected, found }) if expected == "integer" && found == "true"
    ));
    let result = validate(&Value::Number(Number::Int(-42)), &Schema::String);
    assert!(matches!(result, Err(Error::TypeMismatch { found, .. }) if found == "-42"));
    let result = validate(&Value::Number(float("-1.5e-03")), &Schema::Bool);
    assert!(matches!(result, Err(Error::TypeMismatch { found, .. }) if found == "-1.5e-03"));
    let dict = Value::Dict(vec![
        entry("a", Value::Number(Number::UInt(10))),
        entry("b", Value::Dict(vec![entry("c", Value::String("x".into()))])),
        entry("d", Value::Null),
    ]);
    let result = validate(&dict, &Schema::Integer);
    assert!(matches!(
        result,
        Err(Error::TypeMismatch { expected, found }) if expected == "integer" && found == "{a: 10, b: {c: x}, d: null}"
    ));
}

#[test]
fn validate_and_cast_narrows_after_check() {
    let value = Value::Dict(vec![entry("n", Value::Number(float("3.0")))]);
    let schema = Schema::Dict(vec![entry("n", Schema::UnsignedInteger)]);
    let result = validate_and_cast(&value, &schema).unwrap();
    assert_eq!(result, Value::Dict(vec![entry("n", Value::Number(Number::UInt(3)))]));
    let schema = Schema::Dict(vec![entry("m", Schema::UnsignedInteger)]);
    assert!(validate_and_cast(&value, &schema).is_err());
}

#[test]
fn lossless_integer_reads() {
    assert_eq!(Value::Number(float("2.0")).as_i64(), Some(2));
    assert_eq!(Value::Number(float("2.5")).as_i64(), None);
    assert_eq!(Value::Number(float("-3.00")).as_i64(), Some(-3));
    assert_eq!(Value::Number(Number::UInt(u64::MAX)).as_i64(), None);
    assert_eq!(Value::Number(Number::UInt(7)).as_i64(), Some(7));
    assert_eq!(Value::String("7".into()).as_i64(), None);
    assert_eq!(Value::Number(Number::Int(-1)).as_u64(), None);
    assert_eq!(Value::Number(Number::Int(300)).as_u64(), Some(300));
    assert_eq!(Value::Number(float("-0.0")).as_u64(), Some(0));
    assert_eq!(Value::Number(float("-1.0")).as_u64(), None);
    assert_eq!(Value::Number(float("18446744073709551616.0")).as_u64(), None);
}

#[test]
fn casting_twice_is_casting_once() {
    let value = Value::Dict(vec![
        entry("n", Value::Number(Number::UInt(5))),
        entry("f", Value::Number(float("-2.5"))),
    ]);
    let schema = Schema::Dict(vec![
        entry("f", Schema::Optional(Box::new(Schema::Float))),
        entry("n", Schema::Integer),
    ]);
    assert!(validate(&value, &schema).is_ok());
    let once = cast(&value, &schema);
    assert_eq!(cast(&once, &schema), once);
    assert_eq!(
        once,
        Value::Dict(vec![
            entry("f", Value::Number(float("-2.5"))),
            entry("n", Value::Number(Number::Int(5))),
        ])
    );
}

#[test]
fn decimal_numbers_with_exponents() {
    assert_eq!(Value::from_plain_string("1.5e3".to_string()), Value::Number(float("1.5e3")));
    assert_eq!(Value::from_plain_string("1.e5".to_string()), Value::Number(float("1.e5")));
    assert_eq!(Value::from_plain_string(".5E-1".to_string()), Value::Number(float(".5E-1")));
    assert_eq!(Value::from_plain_string("1e5".to_string()), Value::String("1e5".to_string()));
    assert!(Float::parse("1.5e").is_none());
    assert!(Float::parse("1.5e+").is_none());
    assert!(Float::parse("1.5ex").is_none());
    assert_eq!(cast_as_integer(&float("1.5e3")), Value::Number(Number::Int(1500)));
    assert_eq!(cast_as_integer(&float("-12.5e-1")), Value::Number(Number::Int(-1)));
    assert_eq!(cast_as_unsigned_integer(&float("1.0e400")), Value::Number(Number::UInt(u64::MAX)));
    assert_eq!(cast_as_integer(&float("-9.9e30")), Value::Number(Number::Int(i64::MIN)));
    assert_eq!(cast_as_unsigned_integer(&float("4.2e-999999999999999999999999999999999999999")), Value::Number(Number::UInt(0)));
    assert!(validate(&Value::Number(float("1.5e3")), &Schema::Integer).is_ok());
    assert!(validate(&Value::Number(float("2.5e-1")), &Schema::Integer).is_err());
    assert!(validate(&Value::Number(float("1.25e1")), &Schema::UnsignedInteger).is_err());
    assert!(validate(&Value::Number(float("1.25e2")), &Schema::UnsignedInteger).is_ok());
    assert_eq!(Value::Number(float("1.5e3")).as_i64(), Some(1500));
    assert_eq!(Value::Number(float("1.5e30")).as_u64(), None);
}
