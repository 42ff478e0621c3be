//! Turns a token stream into statements, one per non-empty line, checking each line's rules.
use vstd::prelude::*;

use crate::error::{TokenValidationError, TokenValidationErrorView};
use crate::grammar::{
    check_key, check_line_structure, check_value, first_separator, key_error, left_side,
    lemma_first_separator,
    line_structure_error, right_side, value_error,
};
use crate::syntax::{pattern_views, texts, Pattern, PatternView, Syntax, SyntaxValue, SyntaxValueView};
use crate::text::{chars_of, copy_string, string_of};
use crate::token::{views, Token, TokenView};

verus! {

/// The segments of a key: the texts of its plain identifiers.
pub open spec fn key_parts(ts: Seq<TokenView>) -> Seq<Seq<char>>
    decreases ts.len(),
{
    if ts.len() == 0 {
        Seq::empty()
    } else {
        let rest = key_parts(ts.drop_last());
        match ts.last() {
            TokenView::Ident(s) => rest.push(s),
            _ => rest,
        }
    }
}

/// The texts of identifiers and dots read one after the other; `None` if another token occurs.
pub open spec fn joined_text(ts: Seq<TokenView>) -> Option<Seq<char>>
    decreases ts.len(),
{
    if ts.len() == 0 {
        Some(Seq::empty())
    } else {
        match joined_text(ts.drop_last()) {
            None => None,
            Some(p) => match ts.last() {
                TokenView::Ident(s) => Some(p + s),
                TokenView::Dot => Some(p.push('.')),
                _ => None,
            },
        }
    }
}

/// The raw value that a value side stands for.
pub open spec fn built_value(ts: Seq<TokenView>) -> Option<SyntaxValueView> {
    if ts.len() == 0 {
        Some(SyntaxValueView::Plain(Seq::empty()))
    } else if ts.len() == 1 && ts[0] is QuotedIdent {
        Some(SyntaxValueView::Quoted(ts[0]->QuotedIdent_0))
    } else if ts.len() == 1 && ts[0] is Ident {
        Some(SyntaxValueView::Plain(ts[0]->Ident_0))
    } else {
        match joined_text(ts) {
            Some(t) => Some(SyntaxValueView::Plain(t)),
            None => None,
        }
    }
}

/// The statement of one non-empty line, or the first rule it breaks.
pub open spec fn line_result(line: Seq<TokenView>) -> Result<PatternView, TokenValidationErrorView> {
    match line_structure_error(line) {
        Some(e) => Err(TokenValidationErrorView::LineStructure(e)),
        None => {
            let k = left_side(line);
            let v = right_side(line);
            match key_error(k) {
                Some(e) => Err(TokenValidationErrorView::Key(e)),
                None => match value_error(v) {
                    Some(e) => Err(TokenValidationErrorView::Value(e)),
                    None => match built_value(v) {
                        None => Err(TokenValidationErrorView::Internal),
                        Some(value) => Ok(PatternView { key: key_parts(k), value }),
                    },
                },
            }
        },
    }
}

pub open spec fn is_line_end(t: TokenView) -> bool {
    t is Newline || t is Eof
}

/// Where the line that starts at `i` ends: at the next newline or end marker, or at the end.
pub open spec fn line_end(ts: Seq<TokenView>, i: int) -> int
    decreases ts.len() - i,
{
    if i < 0 || i >= ts.len() || is_line_end(ts[i]) {
        i
    } else {
        line_end(ts, i + 1)
    }
}

/// `p` followed by the statements of `r`, or the error of `r`.
pub open spec fn prepend_patterns(
    p: Seq<PatternView>,
    r: Result<Seq<PatternView>, TokenValidationErrorView>,
) -> Result<Seq<PatternView>, TokenValidationErrorView> {
    match r {
        Ok(ps) => Ok(p + ps),
        Err(e) => Err(e),
    }
}

/// The statements of the lines that start at `i` or later; empty lines are skipped and the
/// first line that breaks a rule decides the error.
pub open spec fn analyze_from(ts: Seq<TokenView>, i: int) -> Result<
    Seq<PatternView>,
    TokenValidationErrorView,
>
    decreases ts.len() - i,
{
    if i < 0 || i >= ts.len() {
        Ok(Seq::empty())
    } else {
        let e = line_end(ts, i);
        let rest = if i <= e < ts.len() {
            analyze_from(ts, e + 1)
        } else {
            Ok(Seq::empty())
        };
        if e == i {
            rest
        } else {
            match line_result(ts.subrange(i, e)) {
                Err(x) => Err(x),
                Ok(p) => prepend_patterns(seq![p], rest),
            }
        }
    }
}

pub open spec fn analyze(ts: Seq<TokenView>) -> Result<Seq<PatternView>, TokenValidationErrorView> {
    analyze_from(ts, 0)
}

proof fn lemma_no_separator(ts: Seq<TokenView>)
    requires
        forall|j: int| 0 <= j < ts.len() ==> !(ts[j] is Separator),
    ensures
        first_separator(ts) == ts.len(),
    decreases ts.len(),
{
    if ts.len() > 0 {
        let rest = ts.subrange(1, ts.len() as int);
        assert forall|j: int| 0 <= j < rest.len() implies !(rest[j] is Separator) by {
            assert(rest[j] == ts[j + 1]);
        }
        lemma_no_separator(rest);
    }
}

/// The number of non-empty lines of a token stream from position `i` on.
pub open spec fn filled_lines_from(ts: Seq<TokenView>, i: int) -> nat
    decreases ts.len() - i,
{
    if i < 0 || i >= ts.len() {
        0
    } else {
        let e = line_end(ts, i);
        let rest = if i <= e < ts.len() {
            filled_lines_from(ts, e + 1)
        } else {
            0
        };
        if e == i {
            rest
        } else {
            rest + 1
        }
    }
}

proof fn lemma_line_end_bounds(ts: Seq<TokenView>, i: int)
    requires
        0 <= i <= ts.len(),
    ensures
        i <= line_end(ts, i) <= ts.len(),
    decreases ts.len() - i,
{
    if i < ts.len() && !is_line_end(ts[i]) {
        lemma_line_end_bounds(ts, i + 1);
    }
}

/// Reading a token stream gives exactly one statement per non-empty line.
pub proof fn lemma_one_statement_per_line(ts: Seq<TokenView>, i: int)
    requires
        0 <= i,
        analyze_from(ts, i) is Ok,
    ensures
        analyze_from(ts, i)->Ok_0.len() == filled_lines_from(ts, i),
    decreases ts.len() - i,
{
    if i < ts.len() {
        lemma_line_end_bounds(ts, i);
        let e = line_end(ts, i);
        if e < ts.len() {
            lemma_one_statement_per_line(ts, e + 1);
        }
    }
}

/// The number of non-empty lines of `ts`, where `open` says whether the line under way already
/// holds a token.
pub open spec fn line_count(ts: Seq<TokenView>, open: bool) -> nat
    decreases ts.len(),
{
    if ts.len() == 0 {
        if open {
            1
        } else {
            0
        }
    } else if is_line_end(ts[0]) {
        (if open {
            1nat
        } else {
            0nat
        }) + line_count(ts.drop_first(), false)
    } else {
        line_count(ts.drop_first(), true)
    }
}

proof fn lemma_line_count_within(ts: Seq<TokenView>, j: int, e: int)
    requires
        0 <= j <= e <= ts.len(),
        e == line_end(ts, j),
    ensures
        line_count(ts.skip(j), true) == 1 + if e < ts.len() {
            line_count(ts.skip(e + 1), false)
        } else {
            0
        },
    decreases e - j,
{
    if j == e {
        if e < ts.len() {
            lemma_line_end_bounds(ts, e + 1);
            assert(is_line_end(ts[e]));
            assert(ts.skip(e)[0] == ts[e]);
            assert(ts.skip(e).drop_first() =~= ts.skip(e + 1));
        } else {
            assert(ts.skip(e).len() == 0);
        }
    } else {
        assert(ts.skip(j)[0] == ts[j]);
        assert(!is_line_end(ts[j]));
        assert(line_end(ts, j + 1) == e);
        assert(ts.skip(j).drop_first() =~= ts.skip(j + 1));
        lemma_line_count_within(ts, j + 1, e);
    }
}

/// Counting lines by jumping from one line end to the next agrees with counting token by token.
pub proof fn lemma_filled_lines_count(ts: Seq<TokenView>, i: int)
    requires
        0 <= i <= ts.len(),
    ensures
        filled_lines_from(ts, i) == line_count(ts.skip(i), false),
    decreases ts.len() - i,
{
    if i == ts.len() {
        assert(ts.skip(i).len() == 0);
    } else {
        lemma_line_end_bounds(ts, i);
        let e = line_end(ts, i);
        if e < ts.len() {
            lemma_filled_lines_count(ts, e + 1);
        }
        assert(ts.skip(i)[0] == ts[i]);
        assert(ts.skip(i).drop_first() =~= ts.skip(i + 1));
        lemma_line_end_bounds(ts, i + 1);
        if e == i {
            assert(is_line_end(ts[i]));
        } else {
            assert(!is_line_end(ts[i]));
            assert(line_end(ts, i + 1) == e);
            lemma_line_count_within(ts, i + 1, e);
        }
    }
}

proof fn lemma_joined_none(ts: Seq<TokenView>, i: int)
    requires
        0 <= i <= ts.len(),
        joined_text(ts.take(i)) is None,
    ensures
        joined_text(ts) is None,
    decreases ts.len() - i,
{
    if i < ts.len() {
        assert(ts.take(i + 1).drop_last() =~= ts.take(i));
        lemma_joined_none(ts, i + 1);
    } else {
        assert(ts.take(i) =~= ts);
    }
}

/// The position of the first separator (the length if there is none).
pub fn find_separator(tokens: &[Token]) -> (r: usize)
    ensures
        r as int == first_separator(views(tokens@)),
        r <= tokens@.len(),
{
    let ghost v = views(tokens@);
    let n = tokens.len();
    let mut i: usize = 0;
    while i < n
        invariant
            n == tokens@.len(),
            v == views(tokens@),
            i <= n,
            forall|j: int| 0 <= j < i ==> !(#[trigger] v[j] is Separator),
        decreases n - i,
    {
        if matches!(tokens[i], Token::Separator) {
            proof {
                lemma_first_separator(v, i as int);
            }
            return i;
        }
        i += 1;
    }
    proof {
        lemma_no_separator(v);
    }
    n
}

/// Copies of `tokens[from..to]`.
pub fn slice_tokens(tokens: &[Token], from: usize, to: usize) -> (r: Vec<Token>)
    requires
        from <= to <= tokens@.len(),
    ensures
        views(r@) == views(tokens@).subrange(from as int, to as int),
{
    let mut r: Vec<Token> = Vec::new();
    let mut i: usize = from;
    while i < to
        invariant
            from <= i <= to <= tokens@.len(),
            views(r@) == views(tokens@).subrange(from as int, i as int),
        decreases to - i,
    {
        let ghost before = r@;
        r.push(tokens[i].copy());
        assert(views(r@) =~= views(before).push(tokens@[i as int]@));
        assert(views(r@) =~= views(tokens@).subrange(from as int, i + 1));
        i += 1;
    }
    r
}

/// Appends the characters of `s` to `out`.
pub fn push_all(out: &mut Vec<char>, s: &Vec<char>)
    ensures
        final(out)@ == old(out)@ + s@,
{
    let ghost start = out@;
    let mut i: usize = 0;
    while i < s.len()
        invariant
            i <= s@.len(),
            out@ == start + s@.take(i as int),
        decreases s@.len() - i,
    {
        out.push(s[i]);
        i += 1;
        assert(out@ =~= start + s@.take(i as int));
    }
    assert(s@.take(s@.len() as int) =~= s@);
}

/// Checks the rules of one line's tokens and reads its statement.
pub struct TokenValidator;

impl TokenValidator {
    /// Checks the shape of one line (see `line_structure_error`).
    pub fn validate_line_structure(tokens: &[Token]) -> (r: Result<(), TokenValidationError>)
        ensures
            match line_structure_error(views(tokens@)) {
                None => r is Ok,
                Some(e) => r matches Err(f) && f@ == TokenValidationErrorView::LineStructure(e),
            },
    {
        match check_line_structure(tokens) {
            Ok(()) => Ok(()),
            Err(e) => Err(TokenValidationError::LineStructure(e)),
        }
    }

    /// The tokens left and right of the first separator.
    pub fn split_key_value(tokens: &[Token]) -> (r: (Vec<Token>, Vec<Token>))
        ensures
            views(r.0@) == left_side(views(tokens@)),
            views(r.1@) == right_side(views(tokens@)),
    {
        let ghost v = views(tokens@);
        let n = tokens.len();
        let p = find_separator(tokens);
        let left = slice_tokens(tokens, 0, p);
        assert(v.subrange(0, p as int) =~= v.take(p as int));
        if p < n {
            let right = slice_tokens(tokens, p + 1, n);
            assert(v.subrange(p + 1, n as int) =~= v.skip(p + 1));
            (left, right)
        } else {
            (left, Vec::new())
        }
    }

    /// The segments of a key: the texts of its plain identifiers.
    pub fn build_key(key_tokens: &[Token]) -> (r: Vec<String>)
        ensures
            texts(r@) == key_parts(views(key_tokens@)),
    {
        let ghost v = views(key_tokens@);
        let n = key_tokens.len();
        let mut r: Vec<String> = Vec::new();
        let mut i: usize = 0;
        while i < n
            invariant
                n == key_tokens@.len(),
                v == views(key_tokens@),
                i <= n,
                texts(r@) == key_parts(v.take(i as int)),
            decreases n - i,
        {
            assert(v.take(i + 1).drop_last() =~= v.take(i as int));
            match &key_tokens[i] {
                Token::Ident(name) => {
                    let ghost before = r@;
                    r.push(copy_string(name));
                    assert(texts(r@) =~= texts(before).push(name@));
                },
                _ => {},
            }
            i += 1;
        }
        assert(v.take(n as int) =~= v);
        r
    }

    /// The raw value that the value side stands for: nothing is the empty plain value, a single
    /// identifier is itself, and a run of identifiers and dots is their texts read together.
    pub fn build_value(value_tokens: &[Token]) -> (r: Result<SyntaxValue, TokenValidationError>)
        ensures
            match built_value(views(value_tokens@)) {
                Some(sv) => r matches Ok(x) && x@ == sv,
                None => r matches Err(e) && e@ == TokenValidationErrorView::Internal,
            },
    {
        let ghost v = views(value_tokens@);
        let n = value_tokens.len();
        if n == 0 {
            return Ok(SyntaxValue::Plain(String::new()));
        }
        if n == 1 {
            match &value_tokens[0] {
                Token::QuotedIdent(name) => {
                    return Ok(SyntaxValue::Quoted(copy_string(name)));
                },
                Token::Ident(name) => {
                    return Ok(SyntaxValue::Plain(copy_string(name)));
                },
                _ => {
                    assert(v[0] == value_tokens@[0]@);
                },
            }
        }
        let mut out: Vec<char> = Vec::new();
        let mut i: usize = 0;
        while i < n
            invariant
                n == value_tokens@.len(),
                v == views(value_tokens@),
                i <= n,
                joined_text(v.take(i as int)) == Some(out@),
                n == 1 ==> !(v[0] is QuotedIdent) && !(v[0] is Ident),
            decreases n - i,
        {
            assert(v.take(i + 1).drop_last() =~= v.take(i as int));
            match &value_tokens[i] {
                Token::Ident(name) => {
                    let cs = chars_of(name.as_str());
                    push_all(&mut out, &cs);
                },
                Token::Dot => {
                    out.push('.');
                },
                _ => {
                    proof {
                        lemma_joined_none(v, i + 1);
                    }
                    return Err(
                        TokenValidationError::Internal(
                            string_of(&vec!['u', 'n', 'e', 'x', 'p', 'e', 'c', 't', 'e', 'd', ' ', 't', 'o', 'k', 'e', 'n']),
                        ),
                    );
                },
            }
            i += 1;
        }
        assert(v.take(n as int) =~= v);
        Ok(SyntaxValue::Plain(string_of(&out)))
    }

    /// Reads the statement of one non-empty line, or the first rule it breaks.
    pub fn analyze_line(line: &[Token]) -> (r: Result<Pattern, TokenValidationError>)
        ensures
            match line_result(views(line@)) {
                Ok(p) => r matches Ok(x) && x@ == p,
                Err(e) => r matches Err(f) && f@ == e,
            },
    {
        match check_line_structure(line) {
            Err(e) => {
                return Err(TokenValidationError::LineStructure(e));
            },
            Ok(()) => {},
        }
        let (key_tokens, value_tokens) = Self::split_key_value(line);
        match check_key(key_tokens.as_slice()) {
            Err(e) => {
                return Err(TokenValidationError::Key(e));
            },
            Ok(()) => {},
        }
        match check_value(value_tokens.as_slice()) {
            Err(e) => {
                return Err(TokenValidationError::Value(e));
            },
            Ok(()) => {},
        }
        let key_parts = Self::build_key(key_tokens.as_slice());
        let value = Self::build_value(value_tokens.as_slice());
        match value {
            Err(e) => Err(e),
            Ok(value) => Ok(Pattern { key_parts, value }),
        }
    }

    /// Reads the statements of a token stream, one per non-empty line (lines end at `Newline`
    /// or `Eof`); the first line that breaks a rule decides the error.
    pub fn validate(tokens: Vec<Token>) -> (r: Result<Syntax, TokenValidationError>)
        ensures
            match analyze(views(tokens@)) {
                Ok(ps) => r matches Ok(x) && x@ == ps,
                Err(e) => r matches Err(f) && f@ == e,
            },
    {
        let ghost v = views(tokens@);
        let n = tokens.len();
        let mut patterns: Vec<Pattern> = Vec::new();
        let mut i: usize = 0;
        while i < n
            invariant
                n == tokens@.len(),
                v == views(tokens@),
                i <= n,
                analyze(v) == prepend_patterns(pattern_views(patterns@), analyze_from(v, i as int)),
            decreases n - i,
        {
            let mut e: usize = i;
            while e < n && !matches!(tokens[e], Token::Newline | Token::Eof)
                invariant
                    n == tokens@.len(),
                    v == views(tokens@),
                    i <= e <= n,
                    line_end(v, i as int) == line_end(v, e as int),
                decreases n - e,
            {
                e += 1;
            }
            let ghost rest = if e < n {
                analyze_from(v, e + 1)
            } else {
                Ok(Seq::empty())
            };
            if e > i {
                let line = slice_tokens(tokens.as_slice(), i, e);
                match Self::analyze_line(line.as_slice()) {
                    Err(err) => {
                        return Err(err);
                    },
                    Ok(p) => {
                        let ghost before = patterns@;
                        proof {
                            match rest {
                                Ok(ps) => {
                                    assert(pattern_views(before) + (seq![p@] + ps) =~= (
                                    pattern_views(before) + seq![p@]) + ps);
                                },
                                Err(_) => {},
                            }
                        }
                        patterns.push(p);
                        assert(pattern_views(patterns@) =~= pattern_views(before) + seq![p@]);
                    },
                }
            }
            if e == n {
                assert(prepend_patterns(pattern_views(patterns@), Ok(Seq::empty())) == Ok::<
                    Seq<PatternView>,
                    TokenValidationErrorView,
                >(pattern_views(patterns@) + Seq::empty()));
                assert(pattern_views(patterns@) + Seq::<PatternView>::empty() =~= pattern_views(
                    patterns@,
                ));
                return Ok(Syntax { patterns });
            }
            i = e + 1;
        }
        assert(pattern_views(patterns@) + Seq::<PatternView>::empty() =~= pattern_views(patterns@));
        Ok(Syntax { patterns })
    }
}

} // verus!
