//! Tokens produced by the lexer.
use vstd::prelude::*;

verus! {

/// One lexical token. A token stream always ends with a single `Eof`.
#[derive(Debug, Clone, PartialEq)]
pub enum Token {
    Ident(String),
    QuotedIdent(String),
    Separator,
    Dot,
    Newline,
    Eof,
}

/// The mathematical content of a token.
pub enum TokenView {
    Ident(Seq<char>),
    QuotedIdent(Seq<char>),
    Separator,
    Dot,
    Newline,
    Eof,
}

impl View for Token {
    type V = TokenView;

    open spec fn view(&self) -> TokenView {
        match self {
            Token::Ident(s) => TokenView::Ident(s@),
            Token::QuotedIdent(s) => TokenView::QuotedIdent(s@),
            Token::Separator => TokenView::Separator,
            Token::Dot => TokenView::Dot,
            Token::Newline => TokenView::Newline,
            Token::Eof => TokenView::Eof,
        }
    }
}

/// The views of a run of tokens.
pub open spec fn views(ts: Seq<Token>) -> Seq<TokenView> {
    ts.map_values(|t: Token| t@)
}

impl Token {
    /// A copy of this token with the same view.
    pub fn copy(&self) -> (r: Token)
        ensures
            r@ == self@,
    {
        match self {
            Token::Ident(s) => Token::Ident(crate::text::copy_string(s)),
            Token::QuotedIdent(s) => Token::QuotedIdent(crate::text::copy_string(s)),
            Token::Separator => Token::Separator,
            Token::Dot => Token::Dot,
            Token::Newline => Token::Newline,
            Token::Eof => Token::Eof,
        }
    }
}

/// How the lexer treats one character.
#[derive(Debug, PartialEq)]
pub enum TokenResult {
    /// The character is a token by itself.
    Single(Token),
    /// The character starts a token of several characters.
    NeedsBlock(char),
    /// The character starts a comment.
    Comment,
}

} // verus!
