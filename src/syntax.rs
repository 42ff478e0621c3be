//! The statements of a document: one pattern per non-empty line.
use vstd::prelude::*;

verus! {

/// The raw value of a statement.
#[derive(Debug, PartialEq)]
pub enum SyntaxValue {
    Plain(String),
    Quoted(String),
}

pub enum SyntaxValueView {
    Plain(Seq<char>),
    Quoted(Seq<char>),
}

impl View for SyntaxValue {
    type V = SyntaxValueView;

    open spec fn view(&self) -> SyntaxValueView {
        match self {
            SyntaxValue::Plain(s) => SyntaxValueView::Plain(s@),
            SyntaxValue::Quoted(s) => SyntaxValueView::Quoted(s@),
        }
    }
}

/// One statement: a dotted key path and its raw value.
#[derive(Debug, PartialEq)]
pub struct Pattern {
    pub key_parts: Vec<String>,
    pub value: SyntaxValue,
}

pub struct PatternView {
    pub key: Seq<Seq<char>>,
    pub value: SyntaxValueView,
}

/// The texts of a sequence of strings.
pub open spec fn texts(v: Seq<String>) -> Seq<Seq<char>> {
    v.map_values(|s: String| s@)
}

impl View for Pattern {
    type V = PatternView;

    open spec fn view(&self) -> PatternView {
        PatternView { key: texts(self.key_parts@), value: self.value@ }
    }
}

/// The statements of a document, in source order.
#[derive(Debug, PartialEq)]
pub struct Syntax {
    pub patterns: Vec<Pattern>,
}

impl View for Syntax {
    type V = Seq<PatternView>;

    open spec fn view(&self) -> Seq<PatternView> {
        pattern_views(self.patterns@)
    }
}

pub open spec fn pattern_views(ps: Seq<Pattern>) -> Seq<PatternView> {
    ps.map_values(|p: Pattern| p@)
}

} // verus!
