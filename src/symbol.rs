//! Classification of single characters of a configuration document.
use vstd::prelude::*;

use crate::error::TokenError;
use crate::lexer::{
    block_step, comment_end, is_invalid, is_invalid_char, is_skip, process_block_token,
    skip_comment, TryFromSource,
};
use crate::text::string_of;
use crate::token::{Token, TokenView};

verus! {

/// The character classes that `SymbolChar` reads by: those of a configuration document, with
/// `:` forbidden as well.
pub struct SymbolDialect;

impl TryFromSource for SymbolDialect {
    open spec fn spec_input(&self) -> Seq<char> {
        Seq::empty()
    }

    open spec fn spec_separator() -> char {
        '='
    }

    open spec fn spec_additional_invalid(c: char) -> bool {
        c == ';' || c == ':'
    }

    fn input_chars(&self) -> (r: Vec<char>) {
        Vec::new()
    }

    fn separator() -> (r: char) {
        '='
    }

    fn is_additional_invalid(c: char) -> (r: bool) {
        c == ';' || c == ':'
    }
}

/// A character that is a token by itself.
#[derive(Debug, PartialEq, Eq, Structural)]
pub enum SingleToken {
    Equal,
    Dot,
    Newline,
}

/// A character that starts a token of several characters, or a comment.
#[derive(Debug, PartialEq, Eq, Structural)]
pub enum BlockToken {
    Ident(char),
    SingleQuoteIdent,
    DoubleQuoteIdent,
    Comment,
}

/// What one character of a configuration document starts.
#[derive(Debug, PartialEq, Eq, Structural)]
pub enum SymbolChar {
    Single(SingleToken),
    Block(BlockToken),
}

pub open spec fn single_char(t: SingleToken) -> char {
    match t {
        SingleToken::Equal => '=',
        SingleToken::Dot => '.',
        SingleToken::Newline => '\n',
    }
}

pub open spec fn single_view(t: SingleToken) -> TokenView {
    match t {
        SingleToken::Equal => TokenView::Separator,
        SingleToken::Dot => TokenView::Dot,
        SingleToken::Newline => TokenView::Newline,
    }
}

pub open spec fn block_char(b: BlockToken) -> char {
    match b {
        BlockToken::Ident(c) => c,
        BlockToken::SingleQuoteIdent => '\'',
        BlockToken::DoubleQuoteIdent => '"',
        BlockToken::Comment => '#',
    }
}

pub open spec fn is_ident_start(c: char) -> bool {
    ('a' <= c <= 'z') || ('A' <= c <= 'Z') || ('0' <= c <= '9') || c == '_'
}

pub open spec fn block_of(c: char) -> Option<BlockToken> {
    if c == '\'' {
        Some(BlockToken::SingleQuoteIdent)
    } else if c == '"' {
        Some(BlockToken::DoubleQuoteIdent)
    } else if c == '#' {
        Some(BlockToken::Comment)
    } else if is_ident_start(c) {
        Some(BlockToken::Ident(c))
    } else {
        None
    }
}

pub open spec fn single_of(c: char) -> Option<SingleToken> {
    if c == '=' {
        Some(SingleToken::Equal)
    } else if c == '.' {
        Some(SingleToken::Dot)
    } else if c == '\n' {
        Some(SingleToken::Newline)
    } else {
        None
    }
}

/// The character that a symbol stands for.
pub open spec fn symbol_char(s: SymbolChar) -> char {
    match s {
        SymbolChar::Single(t) => single_char(t),
        SymbolChar::Block(b) => block_char(b),
    }
}

impl SingleToken {
    pub fn from_symbol(c: char) -> (r: Option<SingleToken>)
        ensures
            r == single_of(c),
    {
        if c == '=' {
            Some(SingleToken::Equal)
        } else if c == '.' {
            Some(SingleToken::Dot)
        } else if c == '\n' {
            Some(SingleToken::Newline)
        } else {
            None
        }
    }

    pub fn as_char(&self) -> (r: char)
        ensures
            r == single_char(*self),
    {
        match self {
            SingleToken::Equal => '=',
            SingleToken::Dot => '.',
            SingleToken::Newline => '\n',
        }
    }

    pub fn to_token(&self) -> (r: Token)
        ensures
            r@ == single_view(*self),
    {
        match self {
            SingleToken::Equal => Token::Separator,
            SingleToken::Dot => Token::Dot,
            SingleToken::Newline => Token::Newline,
        }
    }

    /// The separator and the dot.
    pub fn chars() -> (r: (char, char))
        ensures
            r == ('=', '.'),
    {
        (SingleToken::Equal.as_char(), SingleToken::Dot.as_char())
    }
}

impl BlockToken {
    pub fn from_start_char(c: char) -> (r: Option<BlockToken>)
        ensures
            r == block_of(c),
    {
        if c == '\'' {
            Some(BlockToken::SingleQuoteIdent)
        } else if c == '"' {
            Some(BlockToken::DoubleQuoteIdent)
        } else if c == '#' {
            Some(BlockToken::Comment)
        } else if ('a' <= c && c <= 'z') || ('A' <= c && c <= 'Z') || ('0' <= c && c <= '9') || c
            == '_' {
            Some(BlockToken::Ident(c))
        } else {
            None
        }
    }

    pub fn as_char(&self) -> (r: char)
        ensures
            r == block_char(*self),
    {
        match self {
            BlockToken::Ident(c) => *c,
            BlockToken::SingleQuoteIdent => '\'',
            BlockToken::DoubleQuoteIdent => '"',
            BlockToken::Comment => '#',
        }
    }
}

impl SymbolChar {
    /// Whether `c` produces no token.
    pub fn is_skip_char(c: char) -> (r: bool)
        ensures
            r == is_skip(c),
    {
        crate::lexer::is_skip_char(c)
    }

    /// Whether `c` is forbidden outside quotes: the common set, `:` and `;`, and every
    /// non-ASCII character.
    pub fn is_invalid_chars(c: char) -> (r: bool)
        ensures
            r == is_invalid::<SymbolDialect>(c),
    {
        is_invalid_char::<SymbolDialect>(c)
    }

    /// What `c` starts; skipped, forbidden and unknown characters are errors.
    pub fn try_from(c: char) -> (r: Result<SymbolChar, TokenError>)
        ensures
            is_skip(c) ==> r matches Err(TokenError::Internal(_)),
            !is_skip(c) && is_invalid::<SymbolDialect>(c) ==> r == Err::<SymbolChar, TokenError>(
                TokenError::InvalidChar(c),
            ),
            !is_skip(c) && !is_invalid::<SymbolDialect>(c) ==> match single_of(c) {
                Some(t) => r == Ok::<SymbolChar, TokenError>(SymbolChar::Single(t)),
                None => match block_of(c) {
                    Some(b) => r == Ok::<SymbolChar, TokenError>(SymbolChar::Block(b)),
                    None => r == Err::<SymbolChar, TokenError>(TokenError::InvalidChar(c)),
                },
            },
    {
        if Self::is_skip_char(c) {
            return Err(
                TokenError::Internal(
                    string_of(&vec!['s', 'k', 'i', 'p', ' ', 'c', 'h', 'a', 'r', 'a', 'c', 't', 'e', 'r']),
                ),
            );
        }
        if Self::is_invalid_chars(c) {
            return Err(TokenError::InvalidChar(c));
        }
        match SingleToken::from_symbol(c) {
            Some(t) => {
                return Ok(SymbolChar::Single(t));
            },
            None => {},
        }
        match BlockToken::from_start_char(c) {
            Some(b) => Ok(SymbolChar::Block(b)),
            None => Err(TokenError::InvalidChar(c)),
        }
    }

    /// Reads the token that this symbol starts at `chars[start]`: a single token, nothing for
    /// a comment, or the identifier read with this type's character classes (so `:` inside a
    /// plain identifier is an invalid character). Also gives where reading resumes.
    pub fn emit_token(&self, chars: &Vec<char>, start: usize) -> (r: Result<
        (Option<Token>, usize),
        TokenError,
    >)
        requires
            start < chars@.len(),
            chars@[start as int] == symbol_char(*self),
            *self matches SymbolChar::Block(BlockToken::Ident(c)) ==> is_ident_start(c),
        ensures
            match *self {
                SymbolChar::Single(t) => r matches Ok((Some(x), e)) && x@ == single_view(t) && e
                    == start + 1,
                SymbolChar::Block(BlockToken::Comment) => r matches Ok((None, e)) && e as int
                    == comment_end(chars@, start + 1),
                SymbolChar::Block(_) => match block_step::<SymbolDialect>(chars@, start as int) {
                    Ok((t, e)) => r matches Ok((Some(x), f)) && x@ == t && f == e,
                    Err(err) => r == Err::<(Option<Token>, usize), TokenError>(err),
                },
            },
    {
        let n = chars.len();
        match self {
            SymbolChar::Single(t) => Ok((Some(t.to_token()), start + 1)),
            SymbolChar::Block(BlockToken::Comment) => Ok((None, skip_comment(chars, start + 1))),
            SymbolChar::Block(_) => match process_block_token::<SymbolDialect>(chars, start) {
                Ok((t, e)) => Ok((Some(t), e)),
                Err(err) => Err(err),
            },
        }
    }
}

} // verus!
