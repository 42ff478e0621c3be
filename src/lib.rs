//! Parser and schema validation for a small line-oriented configuration language: `key = value`
//! statements with dotted key paths are read into a value tree, and `key: type` statements into
//! a schema tree that a value tree can be checked against and narrowed by.
pub mod analyzer;
pub mod api;
pub mod document;
pub mod error;
pub mod grammar;
pub mod lexer;
pub mod number;
pub mod schema;
pub mod symbol;
pub mod syntax;
pub mod text;
pub mod token;
pub mod tree;
pub mod validation;
pub mod value;

pub use analyzer::TokenValidator;
pub use api::{
    from_schema, from_str_with_schema, parse_config, validate_and_cast, Parse, SchemaParser,
};
pub use document::{
    ConfigRule, ConfigValidationError, ConfigValidator, SchemaRule, SyntaxValidator,
    ValidationRule,
};
pub use error::{
    DeserializeError, Error, KeyError, LineStructureError, ParseError, SyntaxValidationError,
    TokenError, TokenValidationError, ValueError,
};
pub use lexer::{ConfigSource, Lexer, SchemaSource, Tokenize, TryFromSource};
pub use number::Float;
pub use schema::Schema;
pub use symbol::{BlockToken, SingleToken, SymbolChar, SymbolDialect};
pub use syntax::{Pattern, Syntax, SyntaxValue};
pub use token::{Token, TokenResult};
pub use tree::{DictLike, Parser};
pub use validation::{cast, cast_as_integer, cast_as_unsigned_integer, validate};
pub use value::{Number, Value};
