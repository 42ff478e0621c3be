//! The entry points: configuration text to a value tree, schema text to a schema tree, and both
//! together with checking and narrowing.
use vstd::prelude::*;

use crate::analyzer::{analyze, lemma_filled_lines_count, lemma_one_statement_per_line, TokenValidator};
use crate::document::{
    document_error, first_conflict_from, first_duplicate_from, has_descendant, is_parent_of,
    join_path, paths_of, repeats_earlier, ConfigRule, SchemaRule, SyntaxValidator, ValidationRule,
};
use crate::error::{
    Error, ParseError, SyntaxValidationErrorView, TokenError, TokenValidationErrorView,
};
use crate::lexer::{
    filled_text_lines, lemma_lex_lines, lex_from, ConfigSource, Lexer, SchemaSource, Tokenize,
    TryFromSource,
};
use crate::schema::Schema;
use crate::syntax::{PatternView, Syntax};
use crate::text::owned;
use crate::token::{views, Token, TokenView};
use crate::tree::{
    branch_at, get_path, key_position, keys_of, lemma_get_path_past_leaf, lemma_get_path_snoc_eq,
    lemma_key_position_bounds, lemma_key_position_unique, lemma_ordered_keys_equal,
    lemma_prefix_reachable, ordered, ordered_keys, raw_text, related, unique_keys, unrelated_keys,
    within_paths, wf_tree, DictLike, Parser,
};
use crate::validation::{cast, cast_view, type_error, type_error_of, validate};
use crate::value::Value;

verus! {

/// A failure of reading a document into statements.
pub enum ParseFailure {
    Lexer(TokenError),
    Token(TokenValidationErrorView),
    Syntax(SyntaxValidationErrorView),
}

/// The failure that an error reports, if it is one of reading a document.
pub open spec fn parse_failure_of(e: Error) -> Option<ParseFailure> {
    match e {
        Error::Lexer(t) => Some(ParseFailure::Lexer(t)),
        Error::Parse(ParseError::Token(t)) => Some(ParseFailure::Token(t@)),
        Error::Parse(ParseError::Syntax(x)) => Some(ParseFailure::Syntax(x@)),
        _ => None,
    }
}

/// The statements of a document in dialect `S` under rule `R`, or the first failure: lexing,
/// then each line's rules, then the document checks.
pub open spec fn statements<S: TryFromSource, R: ValidationRule>(text: Seq<char>) -> Result<
    Seq<PatternView>,
    ParseFailure,
> {
    match lex_from::<S>(text, 0) {
        Err(e) => Err(ParseFailure::Lexer(e)),
        Ok(ts) => token_statements::<R>(ts),
    }
}

/// `t` is a branch in which every statement's path leads to the leaf made from its raw value,
/// every entry lies on some statement's path, no branch repeats a key, and every branch keeps
/// its entries in the order in which statements first reach them.
pub open spec fn holds_statements<T: DictLike>(t: T, ps: Seq<PatternView>) -> bool {
    t.spec_branch() is Some && wf_tree(t.spec_branch()->0) && within_paths(
        t.spec_branch()->0,
        ps,
        ps.len() as int,
    ) && ordered(t.spec_branch()->0, ps) && forall|k: int|
        0 <= k < ps.len() && (#[trigger] ps[k]).key.len() >= 1 ==> get_path(
            t.spec_branch()->0,
            ps[k].key,
        ) is Some && T::spec_leaf_of(ps[k].value, get_path(t.spec_branch()->0, ps[k].key)->0)
}

/// What reading a document into a tree gives: the first failure of its statements, else the
/// first raw value that names no leaf, else a tree that holds every statement.
pub open spec fn tree_outcome<T: DictLike>(
    st: Result<Seq<PatternView>, ParseFailure>,
    r: Result<T, Error>,
) -> bool {
    match st {
        Err(f) => r matches Err(e) && parse_failure_of(e) == Some(f),
        Ok(ps) => if forall|k: int| 0 <= k < ps.len() ==> T::spec_convertible(#[trigger] ps[k].value) {
            r matches Ok(t) && holds_statements(t, ps)
        } else {
            exists|k: int|
                0 <= k < ps.len() && !T::spec_convertible(#[trigger] ps[k].value) && (forall|j: int|
                    0 <= j < k ==> T::spec_convertible(#[trigger] ps[j].value)) && (r matches Err(e)
                    && parse_failure_of(e) == Some(
                    ParseFailure::Syntax(SyntaxValidationErrorView::UnknownType(raw_text(ps[k].value))),
                ))
        },
    }
}

proof fn lemma_join_append(a: Seq<Seq<char>>, b: Seq<Seq<char>>)
    requires
        a.len() >= 1,
        b.len() >= 1,
    ensures
        join_path(a + b) == join_path(a).push('.') + join_path(b),
    decreases b.len(),
{
    if b.len() == 1 {
        assert((a + b).drop_last() =~= a);
    } else {
        lemma_join_append(a, b.drop_last());
        assert((a + b).drop_last() =~= a + b.drop_last());
        assert(join_path(a).push('.') + join_path(b.drop_last()).push('.') + b.last() =~= join_path(
            a,
        ).push('.') + (join_path(b.drop_last()).push('.') + b.last()));
    }
}

proof fn lemma_duplicate_found(paths: Seq<Seq<char>>, i: int, b: int)
    requires
        0 <= i <= b < paths.len(),
        repeats_earlier(paths, b),
    ensures
        first_duplicate_from(paths, i) is Some,
    decreases b - i,
{
    if i < b && !repeats_earlier(paths, i) {
        lemma_duplicate_found(paths, i + 1, b);
    }
}

proof fn lemma_conflict_found(paths: Seq<Seq<char>>, i: int, b: int)
    requires
        0 <= i <= b < paths.len(),
        has_descendant(paths, b),
    ensures
        first_conflict_from(paths, i) is Some,
    decreases b - i,
{
    if i < b && !has_descendant(paths, i) {
        lemma_conflict_found(paths, i + 1, b);
    }
}

proof fn lemma_prefix_conflict(ps: Seq<PatternView>, i: int, j: int)
    requires
        0 <= i < ps.len(),
        0 <= j < ps.len(),
        i != j,
        ps[i].key.len() >= 1,
        ps[j].key.len() >= 1,
        ps[i].key.is_prefix_of(ps[j].key),
    ensures
        first_duplicate_from(paths_of(ps), 0) is Some || first_conflict_from(paths_of(ps), 0) is Some,
{
    let paths = paths_of(ps);
    let a = ps[i].key;
    let b = ps[j].key;
    if a.len() == b.len() {
        assert(a =~= b);
        assert(paths[i] == paths[j]);
        if i < j {
            assert(repeats_earlier(paths, j));
            lemma_duplicate_found(paths, 0, j);
        } else {
            assert(repeats_earlier(paths, i));
            lemma_duplicate_found(paths, 0, i);
        }
    } else {
        let rest = b.skip(a.len() as int);
        assert(b =~= a + rest);
        lemma_join_append(a, rest);
        let pa = join_path(a);
        let pb = join_path(b);
        assert(pa.push('.').is_prefix_of(pb)) by {
            assert forall|k: int| 0 <= k < pa.push('.').len() implies pa.push('.')[k] == pb[k] by {
                assert(pb == pa.push('.') + join_path(rest));
            }
        }
        assert(pb.len() > pa.len());
        assert(paths[j] != paths[i] && is_parent_of(paths[i], paths[j]));
        assert(has_descendant(paths, i));
        lemma_conflict_found(paths, 0, i);
    }
}

/// Statements that pass the document checks have pairwise unrelated key paths.
pub proof fn lemma_checked_keys_unrelated<R: ValidationRule>(ps: Seq<PatternView>)
    requires
        document_error::<R>(ps) is None,
    ensures
        unrelated_keys(ps),
{
    assert forall|i: int, j: int|
        0 <= i < ps.len() && 0 <= j < ps.len() && i != j && (#[trigger] ps[i].key).len() >= 1 && (
        #[trigger] ps[j].key).len() >= 1 implies !related(ps[i].key, ps[j].key) by {
        if ps[i].key.is_prefix_of(ps[j].key) {
            lemma_prefix_conflict(ps, i, j);
        }
        if ps[j].key.is_prefix_of(ps[i].key) {
            lemma_prefix_conflict(ps, j, i);
        }
    }
}

/// Reads a document into statements, checking every rule.
pub fn read_statements<S: TryFromSource, R: ValidationRule>(source: S) -> (r: Result<Syntax, Error>)
    ensures
        match statements::<S, R>(source.spec_input()) {
            Ok(ps) => r matches Ok(x) && x@ == ps,
            Err(f) => r matches Err(e) && parse_failure_of(e) == Some(f),
        },
{
    let tokens = match Lexer::tokenize(source) {
        Err(e) => {
            return Err(Error::Lexer(e));
        },
        Ok(ts) => ts,
    };
    let syntax = match TokenValidator::validate(tokens) {
        Err(e) => {
            return Err(Error::Parse(ParseError::Token(e)));
        },
        Ok(s) => s,
    };
    match SyntaxValidator::validate::<R>(&syntax) {
        Err(e) => {
            return Err(Error::Parse(ParseError::Syntax(e)));
        },
        Ok(()) => {},
    }
    Ok(syntax)
}

/// The statements of a token stream under rule `R`, or the first failure.
pub open spec fn token_statements<R: ValidationRule>(ts: Seq<TokenView>) -> Result<
    Seq<PatternView>,
    ParseFailure,
> {
    match analyze(ts) {
        Err(e) => Err(ParseFailure::Token(e)),
        Ok(ps) => match document_error::<R>(ps) {
            Some(e) => Err(ParseFailure::Syntax(e)),
            None => Ok(ps),
        },
    }
}

/// A parser result with its failure lifted to the error of the entry points.
pub open spec fn lift<T>(r: Result<T, ParseError>) -> Result<T, Error> {
    match r {
        Ok(t) => Ok(t),
        Err(e) => Err(Error::Parse(e)),
    }
}

/// Reads a token stream under rule `R` into a tree.
pub fn parse_tokens<R: ValidationRule, T: DictLike>(tokens: Vec<Token>) -> (r: Result<T, ParseError>)
    ensures
        tree_outcome::<T>(token_statements::<R>(views(tokens@)), lift(r)),
{
    let syntax = match TokenValidator::validate(tokens) {
        Err(e) => {
            return Err(ParseError::Token(e));
        },
        Ok(s) => s,
    };
    match SyntaxValidator::validate::<R>(&syntax) {
        Err(e) => {
            return Err(ParseError::Syntax(e));
        },
        Ok(()) => {},
    }
    proof {
        lemma_checked_keys_unrelated::<R>(syntax@);
    }
    Parser::convert_to::<T>(syntax)
}

/// Reads a token stream into a tree of type `T`.
pub trait Parse<T> {
    /// `r` is what reading `tokens` gives.
    spec fn spec_parses(tokens: Seq<TokenView>, r: Result<T, ParseError>) -> bool;

    fn parse(tokens: Vec<Token>) -> (r: Result<T, ParseError>)
        ensures
            Self::spec_parses(views(tokens@), r),
    ;
}

impl Parse<Value> for Parser {
    open spec fn spec_parses(tokens: Seq<TokenView>, r: Result<Value, ParseError>) -> bool {
        tree_outcome::<Value>(token_statements::<ConfigRule>(tokens), lift(r))
    }

    fn parse(tokens: Vec<Token>) -> (r: Result<Value, ParseError>) {
        parse_tokens::<ConfigRule, Value>(tokens)
    }
}

/// Reads schema token streams into schema trees.
pub struct SchemaParser;

impl Parse<Schema> for SchemaParser {
    open spec fn spec_parses(tokens: Seq<TokenView>, r: Result<Schema, ParseError>) -> bool {
        tree_outcome::<Schema>(token_statements::<SchemaRule>(tokens), lift(r))
    }

    fn parse(tokens: Vec<Token>) -> (r: Result<Schema, ParseError>) {
        parse_tokens::<SchemaRule, Schema>(tokens)
    }
}

/// Reads a document in dialect `S` under rule `R` into a tree.
pub fn read_tree<S: TryFromSource, R: ValidationRule, T: DictLike>(source: S) -> (r: Result<T, Error>)
    ensures
        tree_outcome::<T>(statements::<S, R>(source.spec_input()), r),
{
    let tokens = match Lexer::tokenize(source) {
        Err(e) => {
            return Err(Error::Lexer(e));
        },
        Ok(ts) => ts,
    };
    match parse_tokens::<R, T>(tokens) {
        Ok(t) => Ok(t),
        Err(e) => Err(Error::Parse(e)),
    }
}

/// Reads a configuration document into a value tree.
pub fn parse_config(input: &str) -> (r: Result<Value, Error>)
    ensures
        tree_outcome::<Value>(statements::<ConfigSource, ConfigRule>(input@), r),
{
    read_tree::<ConfigSource, ConfigRule, Value>(ConfigSource::new(owned(input)))
}

/// Reads a schema document into a schema tree.
pub fn from_schema(input: &str) -> (r: Result<Schema, Error>)
    ensures
        tree_outcome::<Schema>(statements::<SchemaSource, SchemaRule>(input@), r),
{
    read_tree::<SchemaSource, SchemaRule, Schema>(SchemaSource::new(owned(input)))
}

/// Checks a value tree against a schema tree and narrows its numbers.
pub fn validate_and_cast(value: &Value, schema: &Schema) -> (r: Result<Value, Error>)
    ensures
        match type_error(value@, schema@) {
            None => r matches Ok(v) && v@ == cast_view(value@, schema@),
            Some(e) => r matches Err(x) && type_error_of(x) == Some(e),
        },
{
    match validate(value, schema) {
        Err(e) => Err(e),
        Ok(()) => Ok(cast(value, schema)),
    }
}

/// Reads a configuration document and a schema document, checks the first against the second
/// and narrows its numbers. Reading failures come first, configuration before schema; when both
/// documents read into trees, the result is what `validate_and_cast` gives on them.
pub fn from_str_with_schema(input: &str, schema: &str) -> (r: Result<Value, Error>)
    ensures
        statements::<ConfigSource, ConfigRule>(input@) matches Err(f) ==> (r matches Err(e)
            && parse_failure_of(e) == Some(f)),
        statements::<ConfigSource, ConfigRule>(input@) is Ok ==> exists|
            value: Value,
            sr: Result<Schema, Error>,
        |
            tree_outcome::<Value>(statements::<ConfigSource, ConfigRule>(input@), Ok(value))
                && tree_outcome::<Schema>(statements::<SchemaSource, SchemaRule>(schema@), sr)
                && match sr {
                Err(e) => r == Err::<Value, Error>(e),
                Ok(s) => match type_error(value@, s@) {
                    None => r matches Ok(v) && v@ == cast_view(value@, s@),
                    Some(te) => r matches Err(x) && type_error_of(x) == Some(te),
                },
            },
{
    let value = match parse_config(input) {
        Err(e) => {
            proof {
                let st = statements::<ConfigSource, ConfigRule>(input@);
                if st is Ok {
                    assert(forall|k: int|
                        0 <= k < st->Ok_0.len() ==> Value::spec_convertible(
                            #[trigger] st->Ok_0[k].value,
                        ));
                }
            }
            return Err(e);
        },
        Ok(v) => v,
    };
    let sr = from_schema(schema);
    let ghost sr_view = sr;
    let s = match sr {
        Err(e) => {
            assert(tree_outcome::<Value>(statements::<ConfigSource, ConfigRule>(input@), Ok(value)));
            return Err(e);
        },
        Ok(s) => s,
    };
    let r = validate_and_cast(&value, &s);
    assert(tree_outcome::<Value>(statements::<ConfigSource, ConfigRule>(input@), Ok(value)));
    assert(sr_view == Ok::<Schema, Error>(s));
    r
}

/// A document that reads without failure has exactly one statement per line that holds more
/// than blanks and a comment.
pub proof fn lemma_statement_count<S: TryFromSource, R: ValidationRule>(text: Seq<char>)
    requires
        S::spec_separator() != '\n',
        S::spec_separator() != '#',
        statements::<S, R>(text) is Ok,
    ensures
        statements::<S, R>(text)->Ok_0.len() == filled_text_lines(text, 0, false),
{
    let ts = lex_from::<S>(text, 0)->Ok_0;
    lemma_one_statement_per_line(ts, 0);
    lemma_filled_lines_count(ts, 0);
    assert(ts.skip(0) =~= ts);
    lemma_lex_lines::<S>(text, 0, false);
}

/// Two value trees with the same reachable paths, equal leaves, unique keys and first-reach
/// order have equal branches at every path.
proof fn lemma_same_branch(
    r1: Seq<(String, Value)>,
    r2: Seq<(String, Value)>,
    ps: Seq<PatternView>,
    q: Seq<Seq<char>>,
    e1: Seq<(String, Value)>,
    e2: Seq<(String, Value)>,
)
    requires
        branch_at(r1, q) == Some(e1),
        branch_at(r2, q) == Some(e2),
        wf_tree(r1),
        wf_tree(r2),
        ordered(r1, ps),
        ordered(r2, ps),
        forall|p: Seq<Seq<char>>|
            p.len() >= 1 ==> (#[trigger] get_path(r1, p) is Some <==> get_path(r2, p) is Some),
        forall|p: Seq<Seq<char>>|
            p.len() >= 1 && (#[trigger] get_path(r1, p)) is Some && (get_path(r1, p)->0.spec_branch()
                is None || get_path(r2, p)->0.spec_branch() is None) ==> get_path(r1, p)->0@
                == get_path(r2, p)->0@,
    ensures
        e1.len() == e2.len(),
        forall|i: int|
            0 <= i < e1.len() ==> (#[trigger] e1[i]).0@ == e2[i].0@ && e1[i].1@ == e2[i].1@,
    decreases e1,
{
    let k1 = keys_of(e1);
    let k2 = keys_of(e2);
    assert(ordered_keys(ps, q, k1));
    assert(ordered_keys(ps, q, k2));
    if q.len() >= 1 {
        assert(get_path(r1, q) is Some);
        assert(get_path(r2, q) is Some);
    }
    assert(unique_keys(e1));
    assert(unique_keys(e2));
    assert forall|x: Seq<char>| k1.contains(x) <==> k2.contains(x) by {
        if k1.contains(x) {
            let a = choose|a: int| 0 <= a < k1.len() && k1[a] == x;
            lemma_key_position_unique(e1, a);
            lemma_get_path_snoc_eq(r1, q, x);
            lemma_get_path_snoc_eq(r2, q, x);
            assert(get_path(r1, q.push(x)) is Some);
            lemma_key_position_bounds(e2, x);
            assert(k2[key_position(e2, x)] == x);
        }
        if k2.contains(x) {
            let b = choose|b: int| 0 <= b < k2.len() && k2[b] == x;
            lemma_key_position_unique(e2, b);
            lemma_get_path_snoc_eq(r1, q, x);
            lemma_get_path_snoc_eq(r2, q, x);
            assert(get_path(r2, q.push(x)) is Some);
            lemma_key_position_bounds(e1, x);
            assert(k1[key_position(e1, x)] == x);
        }
    }
    lemma_ordered_keys_equal(ps, q, k1, k2);
    assert(e1.len() == k1.len() && e2.len() == k2.len());
    assert forall|i: int| 0 <= i < e1.len() implies (#[trigger] e1[i]).0@ == e2[i].0@ && e1[i].1@
        == e2[i].1@ by {
        assert(k1[i] == e1[i].0@ && k2[i] == e2[i].0@);
        let x = e1[i].0@;
        let p = q.push(x);
        lemma_key_position_unique(e1, i);
        lemma_key_position_unique(e2, i);
        lemma_get_path_snoc_eq(r1, q, x);
        lemma_get_path_snoc_eq(r2, q, x);
        assert(get_path(r1, p) == Some(e1[i].1));
        assert(get_path(r2, p) == Some(e2[i].1));
        if e1[i].1.spec_branch() is Some && e2[i].1.spec_branch() is Some {
            let v1 = e1[i].1;
            let v2 = e2[i].1;
            let s1 = v1.spec_branch()->0;
            let s2 = v2.spec_branch()->0;
            assert(decreases_to!(e1 => e1[i]));
            assert(decreases_to!(e1[i] => v1));
            assert(decreases_to!(v1 => v1->Dict_0));
            assert(decreases_to!(v1->Dict_0 => s1));
            lemma_same_branch(r1, r2, ps, p, s1, s2);
            assert(v1@->Dict_0 =~= v2@->Dict_0);
        }
    }
}

/// Reading the same configuration text twice gives the same outcome: the same failure, or two
/// equal value trees.
pub proof fn lemma_parse_config_deterministic(
    text: Seq<char>,
    r1: Result<Value, Error>,
    r2: Result<Value, Error>,
)
    requires
        tree_outcome::<Value>(statements::<ConfigSource, ConfigRule>(text), r1),
        tree_outcome::<Value>(statements::<ConfigSource, ConfigRule>(text), r2),
    ensures
        r1 is Ok <==> r2 is Ok,
        r1 matches Err(e1) ==> (r2 matches Err(e2) && parse_failure_of(e1) == parse_failure_of(e2)),
        r1 matches Ok(v1) ==> (r2 matches Ok(v2) && v1@ == v2@),
        r1 matches Ok(v1) ==> (r2 matches Ok(v2) && forall|k: int|
            0 <= k < statements::<ConfigSource, ConfigRule>(text)->Ok_0.len() && (#[trigger] statements::<
                ConfigSource,
                ConfigRule,
            >(text)->Ok_0[k]).key.len() >= 1 ==> get_path(
                v1.spec_branch()->0,
                statements::<ConfigSource, ConfigRule>(text)->Ok_0[k].key,
            )->0@ == get_path(
                v2.spec_branch()->0,
                statements::<ConfigSource, ConfigRule>(text)->Ok_0[k].key,
            )->0@),
        r1 matches Ok(v1) ==> (r2 matches Ok(v2) && wf_tree(v1.spec_branch()->0) && wf_tree(
            v2.spec_branch()->0,
        ) && ordered(v1.spec_branch()->0, statements::<ConfigSource, ConfigRule>(text)->Ok_0)
            && ordered(v2.spec_branch()->0, statements::<ConfigSource, ConfigRule>(text)->Ok_0)
            && forall|q: Seq<Seq<char>>|
            q.len() >= 1 ==> (#[trigger] get_path(v1.spec_branch()->0, q) is Some <==> get_path(
                v2.spec_branch()->0,
                q,
            ) is Some)),
{
    match statements::<ConfigSource, ConfigRule>(text) {
        Err(f) => {},
        Ok(ps) => {
            assert(forall|k: int| 0 <= k < ps.len() ==> Value::spec_convertible(#[trigger] ps[k].value));
            if r1 is Ok {
                let e1 = r1->Ok_0.spec_branch()->0;
                let e2 = r2->Ok_0.spec_branch()->0;
                assert forall|q: Seq<Seq<char>>| q.len() >= 1 implies (#[trigger] get_path(e1, q)
                    is Some <==> get_path(e2, q) is Some) by {
                    if get_path(e1, q) is Some {
                        let k = choose|k: int|
                            0 <= k < ps.len() && (#[trigger] ps[k]).key.len() >= 1
                                && q.is_prefix_of(ps[k].key);
                        lemma_prefix_reachable(e2, ps[k].key, q);
                    }
                    if get_path(e2, q) is Some {
                        let k = choose|k: int|
                            0 <= k < ps.len() && (#[trigger] ps[k]).key.len() >= 1
                                && q.is_prefix_of(ps[k].key);
                        lemma_prefix_reachable(e1, ps[k].key, q);
                    }
                }
                assert forall|p: Seq<Seq<char>>|
                    p.len() >= 1 && (#[trigger] get_path(e1, p)) is Some && (get_path(e1, p)->0.spec_branch()
                        is None || get_path(e2, p)->0.spec_branch() is None) implies get_path(e1, p)->0@
                    == get_path(e2, p)->0@ by {
                    let k = choose|k: int|
                        0 <= k < ps.len() && (#[trigger] ps[k]).key.len() >= 1 && p.is_prefix_of(
                            ps[k].key,
                        );
                    if p.len() < ps[k].key.len() {
                        if get_path(e1, p)->0.spec_branch() is None {
                            lemma_get_path_past_leaf(e1, p, ps[k].key);
                        } else {
                            lemma_get_path_past_leaf(e2, p, ps[k].key);
                        }
                    }
                    assert(p =~= ps[k].key);
                }
                lemma_same_branch(e1, e2, ps, Seq::empty(), e1, e2);
                assert(r1->Ok_0@->Dict_0 =~= r2->Ok_0@->Dict_0);
            }
        },
    }
}

} // verus!
