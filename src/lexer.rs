//! The lexer: a single left-to-right scan, parameterized by a dialect.
use vstd::prelude::*;

use crate::error::TokenError;
use crate::text::{chars_of, string_of};
use crate::analyzer::line_count;
use crate::token::{views, Token, TokenResult, TokenView};

verus! {

/// A dialect of the language together with the text to be read.
pub trait TryFromSource {
    /// The text to be read.
    spec fn spec_input(&self) -> Seq<char>;

    /// The character that separates a key from its value.
    spec fn spec_separator() -> char;

    /// Characters that this dialect forbids besides the common ones.
    spec fn spec_additional_invalid(c: char) -> bool;

    fn input_chars(&self) -> (r: Vec<char>)
        ensures
            r@ == self.spec_input(),
    ;

    fn separator() -> (r: char)
        ensures
            r == Self::spec_separator(),
    ;

    fn is_additional_invalid(c: char) -> (r: bool)
        ensures
            r == Self::spec_additional_invalid(c),
    ;
}

/// Characters that produce no token.
pub open spec fn is_skip(c: char) -> bool {
    c == ' ' || c == '\t' || c == '\r'
}

/// Characters that every dialect forbids outside quotes.
pub open spec fn is_default_invalid(c: char) -> bool {
    c == '[' || c == ']' || c == '{' || c == '}' || c == ',' || c == ';' || c == '!' || c == '@'
        || c == '$' || c == '%' || c == '^' || c == '&' || c == '*' || c == '(' || c == ')'
        || c == '+'
}

pub open spec fn is_ascii_char(c: char) -> bool {
    (c as u32) < 128
}

/// Control characters (Unicode general category Cc).
pub open spec fn is_control_char(c: char) -> bool {
    (c as u32) < 0x20 || (0x7f <= (c as u32) && (c as u32) < 0xa0)
}

pub open spec fn is_invalid<S: TryFromSource>(c: char) -> bool {
    is_default_invalid(c) || S::spec_additional_invalid(c) || !is_ascii_char(c)
}

/// Characters that end a plain identifier.
pub open spec fn is_ident_delimiter<S: TryFromSource>(c: char) -> bool {
    c == ' ' || c == '.' || c == S::spec_separator() || c == '\n'
}

/// The token that a character makes by itself, if any.
pub open spec fn single_token<S: TryFromSource>(c: char) -> Option<TokenView> {
    if c == S::spec_separator() {
        Some(TokenView::Separator)
    } else if c == '.' {
        Some(TokenView::Dot)
    } else if c == '\n' {
        Some(TokenView::Newline)
    } else {
        None
    }
}

/// Reading a plain identifier from `i` on: where it ends, or the invalid character met first.
pub open spec fn scan_ident<S: TryFromSource>(s: Seq<char>, i: int) -> Result<int, char>
    decreases s.len() - i,
{
    if i < 0 || i >= s.len() {
        Ok(i)
    } else if is_invalid::<S>(s[i]) {
        Err(s[i])
    } else if is_ident_delimiter::<S>(s[i]) {
        Ok(i)
    } else {
        scan_ident::<S>(s, i + 1)
    }
}

/// The position of the quote `q` that closes a quoted identifier whose body starts at `i`;
/// `None` if the input ends or a control character comes first. Inside double quotes a
/// backslash keeps the character after it from closing the identifier.
pub open spec fn scan_quoted(s: Seq<char>, i: int, q: char) -> Option<int>
    decreases s.len() - i,
{
    if i < 0 || i >= s.len() {
        None
    } else if is_control_char(s[i]) {
        None
    } else if s[i] == q {
        Some(i)
    } else if q == '"' && s[i] == '\\' {
        if i + 1 < s.len() && !is_control_char(s[i + 1]) {
            scan_quoted(s, i + 2, q)
        } else {
            None
        }
    } else {
        scan_quoted(s, i + 1, q)
    }
}

/// Where a comment whose body starts at `i` ends: at the next newline, or at the end.
pub open spec fn comment_end(s: Seq<char>, i: int) -> int
    decreases s.len() - i,
{
    if i < 0 || i >= s.len() || s[i] == '\n' {
        i
    } else {
        comment_end(s, i + 1)
    }
}

/// What a backslash followed by `c` stands for inside double quotes.
pub open spec fn escaped(c: char) -> Seq<char> {
    if c == 'n' {
        seq!['\n']
    } else if c == 't' {
        seq!['\t']
    } else if c == 'r' {
        seq!['\r']
    } else if c == '\\' {
        seq!['\\']
    } else if c == '"' {
        seq!['"']
    } else if c == '\'' {
        seq!['\'']
    } else if c == '0' {
        seq!['\0']
    } else {
        seq!['\\', c]
    }
}

/// The body of a double-quoted identifier with its escapes applied.
pub open spec fn unescape(s: Seq<char>) -> Seq<char>
    decreases s.len(),
{
    if s.len() == 0 {
        s
    } else if s[0] == '\\' {
        if s.len() == 1 {
            seq!['\\']
        } else {
            escaped(s[1]) + unescape(s.subrange(2, s.len() as int))
        }
    } else {
        seq![s[0]] + unescape(s.subrange(1, s.len() as int))
    }
}

/// The token of several characters that starts at `i`, and where the scan resumes after it.
pub open spec fn block_step<S: TryFromSource>(s: Seq<char>, i: int) -> Result<
    (TokenView, int),
    TokenError,
> {
    let c = s[i];
    if c == '"' || c == '\'' {
        match scan_quoted(s, i + 1, c) {
            None => Err(TokenError::UnterminatedString),
            Some(e) => {
                let body = s.subrange(i + 1, e);
                Ok(
                    (
                        TokenView::QuotedIdent(
                            if c == '"' {
                                unescape(body)
                            } else {
                                body
                            },
                        ),
                        e + 1,
                    ),
                )
            },
        }
    } else {
        match scan_ident::<S>(s, i + 1) {
            Err(bad) => Err(TokenError::InvalidChar(bad)),
            Ok(e) => Ok((TokenView::Ident(s.subrange(i, e)), e)),
        }
    }
}

/// `pre` followed by the tokens of `r`, or the error of `r`.
pub open spec fn prepend(pre: Seq<TokenView>, r: Result<Seq<TokenView>, TokenError>) -> Result<
    Seq<TokenView>,
    TokenError,
> {
    match r {
        Ok(ts) => Ok(pre + ts),
        Err(e) => Err(e),
    }
}

/// The tokens of `s` from position `i` on, ending with `Eof`, or the first error.
pub open spec fn lex_from<S: TryFromSource>(s: Seq<char>, i: int) -> Result<
    Seq<TokenView>,
    TokenError,
>
    decreases s.len() - i,
{
    if i < 0 || i >= s.len() {
        Ok(seq![TokenView::Eof])
    } else {
        let c = s[i];
        if is_skip(c) {
            lex_from::<S>(s, i + 1)
        } else if is_invalid::<S>(c) {
            Err(TokenError::InvalidChar(c))
        } else if single_token::<S>(c) is Some {
            prepend(seq![single_token::<S>(c)->0], lex_from::<S>(s, i + 1))
        } else if c == '#' {
            let e = comment_end(s, i + 1);
            if i < e <= s.len() {
                lex_from::<S>(s, e)
            } else {
                Ok(seq![TokenView::Eof])
            }
        } else {
            match block_step::<S>(s, i) {
                Err(err) => Err(err),
                Ok((t, e)) => if i < e <= s.len() {
                    prepend(seq![t], lex_from::<S>(s, e))
                } else {
                    Ok(seq![TokenView::Eof])
                },
            }
        }
    }
}

/// The tokens of a whole source text.
pub open spec fn lex<S: TryFromSource>(src: &S) -> Result<Seq<TokenView>, TokenError> {
    lex_from::<S>(src.spec_input(), 0)
}

/// The number of lines of `s` from position `i` on that hold more than blanks and a comment;
/// `filled` says whether the line under way already does.
pub open spec fn filled_text_lines(s: Seq<char>, i: int, filled: bool) -> nat
    decreases s.len() - i,
{
    if i < 0 || i >= s.len() {
        if filled {
            1
        } else {
            0
        }
    } else if s[i] == '\n' {
        (if filled {
            1nat
        } else {
            0nat
        }) + filled_text_lines(s, i + 1, false)
    } else if is_skip(s[i]) {
        filled_text_lines(s, i + 1, filled)
    } else if s[i] == '#' {
        let e = comment_end(s, i + 1);
        if i < e <= s.len() {
            filled_text_lines(s, e, filled)
        } else {
            0
        }
    } else {
        filled_text_lines(s, i + 1, true)
    }
}

pub proof fn lemma_comment_end(s: Seq<char>, j: int)
    requires
        0 <= j <= s.len(),
    ensures
        j <= comment_end(s, j) <= s.len(),
        forall|m: int| j <= m < comment_end(s, j) ==> s[m] != '\n',
        comment_end(s, j) < s.len() ==> s[comment_end(s, j)] == '\n',
    decreases s.len() - j,
{
    if j < s.len() && s[j] != '\n' {
        lemma_comment_end(s, j + 1);
    }
}

proof fn lemma_comment_end_skips(s: Seq<char>, j: int, e: int)
    requires
        0 <= j <= e <= s.len(),
        forall|m: int| j <= m < e ==> s[m] != '\n',
    ensures
        comment_end(s, j) == comment_end(s, e),
    decreases e - j,
{
    if j < e {
        lemma_comment_end_skips(s, j + 1, e);
    }
}

proof fn lemma_same_line(s: Seq<char>, j: int)
    requires
        0 <= j <= s.len(),
    ensures
        filled_text_lines(s, j, true) == filled_text_lines(s, comment_end(s, j), true),
    decreases s.len() - j,
{
    if j < s.len() && s[j] != '\n' {
        lemma_comment_end(s, j + 1);
        if s[j] != '#' {
            lemma_same_line(s, j + 1);
        }
    }
}

proof fn lemma_ident_line<S: TryFromSource>(s: Seq<char>, j: int, e: int)
    requires
        0 <= j <= s.len(),
        scan_ident::<S>(s, j) == Ok::<int, char>(e),
    ensures
        j <= e <= s.len(),
        forall|m: int| j <= m < e ==> s[m] != '\n',
    decreases s.len() - j,
{
    if j < s.len() && !is_invalid::<S>(s[j]) && !is_ident_delimiter::<S>(s[j]) {
        lemma_ident_line::<S>(s, j + 1, e);
    }
}

proof fn lemma_quoted_line(s: Seq<char>, j: int, q: char, c: int)
    requires
        0 <= j,
        scan_quoted(s, j, q) == Some(c),
    ensures
        j <= c < s.len(),
        forall|m: int| j <= m <= c ==> s[m] != '\n',
    decreases s.len() - j,
{
    if j < s.len() && !is_control_char(s[j]) && s[j] != q {
        if q == '"' && s[j] == '\\' {
            lemma_quoted_line(s, j + 2, q, c);
        } else {
            lemma_quoted_line(s, j + 1, q, c);
        }
    }
}

/// Lexing counts lines as the text does: the tokens have one non-empty line for each line of
/// the text that holds more than blanks and a comment.
pub proof fn lemma_lex_lines<S: TryFromSource>(s: Seq<char>, i: int, open: bool)
    requires
        0 <= i,
        S::spec_separator() != '\n',
        S::spec_separator() != '#',
        lex_from::<S>(s, i) is Ok,
    ensures
        line_count(lex_from::<S>(s, i)->Ok_0, open) == filled_text_lines(s, i, open),
    decreases s.len() - i,
{
    let ts = lex_from::<S>(s, i)->Ok_0;
    if i >= s.len() {
        assert(ts == seq![TokenView::Eof]);
        assert(ts.drop_first() =~= Seq::<TokenView>::empty());
        assert(line_count(ts.drop_first(), false) == 0);
        assert(line_count(ts, open) == filled_text_lines(s, i, open));
    } else {
        let c = s[i];
        if is_skip(c) {
            lemma_lex_lines::<S>(s, i + 1, open);
            assert(line_count(ts, open) == filled_text_lines(s, i, open));
        } else if single_token::<S>(c) is Some {
            let rest = lex_from::<S>(s, i + 1)->Ok_0;
            assert(ts.drop_first() =~= rest);
            lemma_lex_lines::<S>(s, i + 1, c != '\n');
            if c == '\n' {
                lemma_lex_lines::<S>(s, i + 1, false);
            }
            assert(line_count(ts, open) == filled_text_lines(s, i, open));
        } else if c == '#' {
            lemma_comment_end(s, i + 1);
            lemma_lex_lines::<S>(s, comment_end(s, i + 1), open);
            assert(line_count(ts, open) == filled_text_lines(s, i, open));
        } else {
            let (t, e) = block_step::<S>(s, i)->Ok_0;
            if c == '"' || c == '\'' {
                let close = scan_quoted(s, i + 1, c)->0;
                lemma_quoted_line(s, i + 1, c, close);
            } else {
                lemma_ident_line::<S>(s, i + 1, e);
            }
            let rest = lex_from::<S>(s, e)->Ok_0;
            assert(ts.drop_first() =~= rest);
            lemma_lex_lines::<S>(s, e, true);
            lemma_comment_end(s, i + 1);
            lemma_comment_end_skips(s, i + 1, e);
            lemma_same_line(s, i + 1);
            lemma_same_line(s, e);
            assert(filled_text_lines(s, i + 1, true) == filled_text_lines(s, e, true));
            assert(filled_text_lines(s, i, open) == filled_text_lines(s, i + 1, true));
            assert(ts[0] == t);
            assert(line_count(ts, open) == line_count(rest, true));
        }
    }
}

/// Whether an executable lexer result is the given one.
pub open spec fn lexes_to(
    r: Result<Vec<Token>, TokenError>,
    m: Result<Seq<TokenView>, TokenError>,
) -> bool {
    match (r, m) {
        (Ok(ts), Ok(vs)) => views(ts@) == vs,
        (Err(e), Err(f)) => e == f,
        _ => false,
    }
}

/// Whether `c` produces no token.
pub fn is_skip_char(c: char) -> (r: bool)
    ensures
        r == is_skip(c),
{
    c == ' ' || c == '\t' || c == '\r'
}

/// Whether `c` is forbidden outside quotes in the dialect `S`.
pub fn is_invalid_char<S: TryFromSource>(c: char) -> (r: bool)
    ensures
        r == is_invalid::<S>(c),
{
    let default_invalid = c == '[' || c == ']' || c == '{' || c == '}' || c == ',' || c == ';'
        || c == '!' || c == '@' || c == '$' || c == '%' || c == '^' || c == '&' || c == '*'
        || c == '(' || c == ')' || c == '+';
    default_invalid || S::is_additional_invalid(c) || !((c as u32) < 128)
}

/// How the lexer treats `c`, once skipped and invalid characters are set aside.
pub fn classify_char<S: TryFromSource>(c: char) -> (r: TokenResult)
    ensures
        match r {
            TokenResult::Single(t) => single_token::<S>(c) == Some(t@),
            TokenResult::Comment => single_token::<S>(c) is None && c == '#',
            TokenResult::NeedsBlock(d) => single_token::<S>(c) is None && c != '#' && d == c,
        },
{
    if c == S::separator() {
        TokenResult::Single(Token::Separator)
    } else if c == '.' {
        TokenResult::Single(Token::Dot)
    } else if c == '\n' {
        TokenResult::Single(Token::Newline)
    } else if c == '#' {
        TokenResult::Comment
    } else {
        TokenResult::NeedsBlock(c)
    }
}

/// The characters `s[from..to]`.
pub fn slice_chars(s: &Vec<char>, from: usize, to: usize) -> (r: Vec<char>)
    requires
        from <= to <= s@.len(),
    ensures
        r@ == s@.subrange(from as int, to as int),
{
    let mut r: Vec<char> = Vec::new();
    let mut i: usize = from;
    while i < to
        invariant
            from <= i <= to <= s@.len(),
            r@ == s@.subrange(from as int, i as int),
        decreases to - i,
    {
        r.push(s[i]);
        i += 1;
        assert(r@ =~= s@.subrange(from as int, i as int));
    }
    r
}

/// Where a comment whose body starts at `start` ends.
pub fn skip_comment(s: &Vec<char>, start: usize) -> (r: usize)
    requires
        start <= s@.len(),
    ensures
        r as int == comment_end(s@, start as int),
        start <= r <= s@.len(),
{
    let mut i: usize = start;
    while i < s.len() && s[i] != '\n'
        invariant
            start <= i <= s@.len(),
            comment_end(s@, start as int) == comment_end(s@, i as int),
        decreases s@.len() - i,
    {
        i += 1;
    }
    i
}

/// Reads a plain identifier whose rest starts at `start`: where it ends, or the invalid
/// character met first.
pub fn read_ident_end<S: TryFromSource>(s: &Vec<char>, start: usize) -> (r: Result<
    usize,
    char,
>)
    requires
        start <= s@.len(),
    ensures
        match r {
            Ok(e) => scan_ident::<S>(s@, start as int) == Ok::<int, char>(e as int) && start <= e
                <= s@.len(),
            Err(c) => scan_ident::<S>(s@, start as int) == Err::<int, char>(c),
        },
{
    let sep = S::separator();
    let mut i: usize = start;
    while i < s.len()
        invariant
            start <= i <= s@.len(),
            sep == S::spec_separator(),
            scan_ident::<S>(s@, start as int) == scan_ident::<S>(s@, i as int),
        decreases s@.len() - i,
    {
        let c = s[i];
        if is_invalid_char::<S>(c) {
            return Err(c);
        }
        if c == ' ' || c == '.' || c == sep || c == '\n' {
            return Ok(i);
        }
        i += 1;
    }
    Ok(i)
}

/// Reads the body of a quoted identifier that starts at `start`: the position of the closing
/// quote `q`, or `None` if the input ends or a control character comes first.
pub fn read_quoted_end(s: &Vec<char>, start: usize, q: char) -> (r: Option<usize>)
    requires
        start <= s@.len(),
    ensures
        match r {
            Some(e) => scan_quoted(s@, start as int, q) == Some(e as int) && start <= e < s@.len(),
            None => scan_quoted(s@, start as int, q) is None,
        },
{
    let mut i: usize = start;
    while i < s.len()
        invariant
            start <= i <= s@.len(),
            scan_quoted(s@, start as int, q) == scan_quoted(s@, i as int, q),
        decreases s@.len() - i,
    {
        let c = s[i];
        let code = c as u32;
        if code < 0x20 || (0x7f <= code && code < 0xa0) {
            return None;
        }
        if c == q {
            return Some(i);
        }
        if q == '"' && c == '\\' {
            if i + 1 >= s.len() {
                return None;
            }
            let next = s[i + 1] as u32;
            if next < 0x20 || (0x7f <= next && next < 0xa0) {
                return None;
            }
            i += 2;
        } else {
            i += 1;
        }
    }
    None
}

/// Appends what a backslash followed by `c` stands for inside double quotes.
fn push_escaped(out: &mut Vec<char>, c: char)
    ensures
        final(out)@ == old(out)@ + escaped(c),
{
    let ghost before = out@;
    if c == 'n' {
        out.push('\n');
    } else if c == 't' {
        out.push('\t');
    } else if c == 'r' {
        out.push('\r');
    } else if c == '\\' {
        out.push('\\');
    } else if c == '"' {
        out.push('"');
    } else if c == '\'' {
        out.push('\'');
    } else if c == '0' {
        out.push('\0');
    } else {
        out.push('\\');
        out.push(c);
    }
    assert(out@ =~= before + escaped(c));
}

/// Applies the escapes of a double-quoted identifier to its body.
pub fn process_escape_sequences(input: &Vec<char>) -> (r: Vec<char>)
    ensures
        r@ == unescape(input@),
{
    let n = input.len();
    let mut out: Vec<char> = Vec::new();
    let mut i: usize = 0;
    assert(input@.subrange(0, n as int) =~= input@);
    assert(out@ + unescape(input@) =~= unescape(input@));
    while i < n
        invariant
            n == input@.len(),
            i <= n,
            unescape(input@) == out@ + unescape(input@.subrange(i as int, n as int)),
        decreases n - i,
    {
        let ghost rest = input@.subrange(i as int, n as int);
        let c = input[i];
        if c == '\\' {
            if i + 1 == n {
                out.push('\\');
                i += 1;
                assert(input@.subrange(i as int, n as int) =~= Seq::<char>::empty());
            } else {
                let d = input[i + 1];
                assert(rest.subrange(2, rest.len() as int) =~= input@.subrange(
                    i + 2,
                    n as int,
                ));
                push_escaped(&mut out, d);
                i += 2;
            }
        } else {
            assert(rest.subrange(1, rest.len() as int) =~= input@.subrange(i + 1, n as int));
            out.push(c);
            i += 1;
        }
    }
    assert(input@.subrange(n as int, n as int) =~= Seq::<char>::empty());
    assert(out@ + Seq::<char>::empty() =~= out@);
    out
}

/// Reads the token of several characters that starts at `start`, and where the scan resumes.
pub fn process_block_token<S: TryFromSource>(s: &Vec<char>, start: usize) -> (r: Result<
    (Token, usize),
    TokenError,
>)
    requires
        start < s@.len(),
    ensures
        match r {
            Ok((t, e)) => block_step::<S>(s@, start as int) == Ok::<(TokenView, int), TokenError>(
                (t@, e as int),
            ) && start < e <= s@.len(),
            Err(err) => block_step::<S>(s@, start as int) == Err::<(TokenView, int), TokenError>(
                err,
            ),
        },
{
    let n = s.len();
    let c = s[start];
    if c == '"' || c == '\'' {
        match read_quoted_end(s, start + 1, c) {
            None => Err(TokenError::UnterminatedString),
            Some(e) => {
                let body = slice_chars(s, start + 1, e);
                let content = if c == '"' {
                    process_escape_sequences(&body)
                } else {
                    body
                };
                Ok((Token::QuotedIdent(string_of(&content)), e + 1))
            },
        }
    } else {
        match read_ident_end::<S>(s, start + 1) {
            Err(bad) => Err(TokenError::InvalidChar(bad)),
            Ok(e) => {
                let content = slice_chars(s, start, e);
                Ok((Token::Ident(string_of(&content)), e))
            },
        }
    }
}

proof fn lemma_prepend_assoc(a: Seq<TokenView>, b: Seq<TokenView>, r: Result<Seq<TokenView>, TokenError>)
    ensures
        prepend(a, prepend(b, r)) == prepend(a + b, r),
{
    match r {
        Ok(ts) => {
            assert(a + (b + ts) =~= (a + b) + ts);
        },
        Err(_) => {},
    }
}

/// Splits a source text into tokens, ending with `Eof`; the first lexical error ends the scan.
pub fn tokenize_source<S: TryFromSource>(source: &S) -> (r: Result<Vec<Token>, TokenError>)
    ensures
        lexes_to(r, lex(source)),
{
    let s = source.input_chars();
    let mut tokens: Vec<Token> = Vec::new();
    let mut i: usize = 0;
    while i < s.len()
        invariant
            s@ == source.spec_input(),
            i <= s@.len(),
            lex(source) == prepend(views(tokens@), lex_from::<S>(s@, i as int)),
        decreases s@.len() - i,
    {
        let c = s[i];
        if is_skip_char(c) {
            i += 1;
        } else if is_invalid_char::<S>(c) {
            return Err(TokenError::InvalidChar(c));
        } else {
            let ghost old_tokens = tokens@;
            match classify_char::<S>(c) {
                TokenResult::Single(t) => {
                    proof {
                        lemma_prepend_assoc(views(old_tokens), seq![t@], lex_from::<S>(s@, i + 1));
                    }
                    tokens.push(t);
                    i += 1;
                    assert(views(tokens@) =~= views(old_tokens) + seq![t@]);
                },
                TokenResult::Comment => {
                    i = skip_comment(&s, i + 1);
                },
                TokenResult::NeedsBlock(_) => {
                    match process_block_token::<S>(&s, i) {
                        Err(err) => {
                            return Err(err);
                        },
                        Ok((t, e)) => {
                            proof {
                                lemma_prepend_assoc(views(old_tokens), seq![t@], lex_from::<S>(s@, e as int));
                            }
                            tokens.push(t);
                            i = e;
                            assert(views(tokens@) =~= views(old_tokens) + seq![t@]);
                        },
                    }
                },
            }
        }
    }
    let ghost before = tokens@;
    tokens.push(Token::Eof);
    assert(views(tokens@) =~= views(before) + seq![TokenView::Eof]);
    Ok(tokens)
}

/// Turns a source text into tokens.
pub trait Tokenize {
    fn tokenize<S: TryFromSource>(source: S) -> (r: Result<Vec<Token>, TokenError>)
        ensures
            lexes_to(r, lex(&source)),
    ;
}

/// The lexer of both dialects.
pub struct Lexer;

impl Tokenize for Lexer {
    fn tokenize<S: TryFromSource>(source: S) -> (r: Result<Vec<Token>, TokenError>) {
        tokenize_source(&source)
    }
}

/// A configuration document: separator `=`, quoted identifiers allowed.
pub struct ConfigSource {
    pub input: String,
}

impl ConfigSource {
    pub fn new(input: String) -> (r: ConfigSource)
        ensures
            r.input@ == input@,
    {
        ConfigSource { input }
    }

    /// How the lexer treats `c` in this dialect.
    pub fn classify_char(&self, c: char) -> (r: TokenResult)
        ensures
            match r {
                TokenResult::Single(t) => single_token::<Self>(c) == Some(t@),
                TokenResult::Comment => single_token::<Self>(c) is None && c == '#',
                TokenResult::NeedsBlock(d) => single_token::<Self>(c) is None && c != '#' && d == c,
            },
    {
        classify_char::<Self>(c)
    }

    /// Reads the token of several characters that starts at `chars[start]`.
    pub fn process_block_token(&self, chars: &Vec<char>, start: usize) -> (r: Result<
        (Token, usize),
        TokenError,
    >)
        requires
            start < chars@.len(),
        ensures
            match r {
                Ok((t, e)) => block_step::<Self>(chars@, start as int) == Ok::<
                    (TokenView, int),
                    TokenError,
                >((t@, e as int)),
                Err(err) => block_step::<Self>(chars@, start as int) == Err::<
                    (TokenView, int),
                    TokenError,
                >(err),
            },
    {
        process_block_token::<Self>(chars, start)
    }
}

impl TryFromSource for ConfigSource {
    open spec fn spec_input(&self) -> Seq<char> {
        self.input@
    }

    open spec fn spec_separator() -> char {
        '='
    }

    open spec fn spec_additional_invalid(c: char) -> bool {
        c == ';'
    }

    fn input_chars(&self) -> (r: Vec<char>) {
        chars_of(self.input.as_str())
    }

    fn separator() -> (r: char) {
        '='
    }

    fn is_additional_invalid(c: char) -> (r: bool) {
        c == ';'
    }
}

/// A schema document: separator `:`; quotes and `=` are forbidden.
pub struct SchemaSource {
    pub input: String,
}

impl SchemaSource {
    pub fn new(input: String) -> (r: SchemaSource)
        ensures
            r.input@ == input@,
    {
        SchemaSource { input }
    }

    /// How the lexer treats `c` in this dialect.
    pub fn classify_char(&self, c: char) -> (r: TokenResult)
        ensures
            match r {
                TokenResult::Single(t) => single_token::<Self>(c) == Some(t@),
                TokenResult::Comment => single_token::<Self>(c) is None && c == '#',
                TokenResult::NeedsBlock(d) => single_token::<Self>(c) is None && c != '#' && d == c,
            },
    {
        classify_char::<Self>(c)
    }
}

impl TryFromSource for SchemaSource {
    open spec fn spec_input(&self) -> Seq<char> {
        self.input@
    }

    open spec fn spec_separator() -> char {
        ':'
    }

    open spec fn spec_additional_invalid(c: char) -> bool {
        c == '=' || c == '"' || c == '\''
    }

    fn input_chars(&self) -> (r: Vec<char>) {
        chars_of(self.input.as_str())
    }

    fn separator() -> (r: char) {
        ':'
    }

    fn is_additional_invalid(c: char) -> (r: bool) {
        c == '=' || c == '"' || c == '\''
    }
}

} // verus!
