//! The rules on one line's tokens: its shape, its key and its value.
use vstd::prelude::*;

use crate::error::{KeyError, KeyErrorView, LineStructureError, ValueError};
use crate::text::{chars_of, copy_string};
use crate::token::{views, Token, TokenView};

verus! {

/// Classes of tokens that the rules count.
pub enum Kind {
    Separator,
    Dot,
    Plain,
    Quoted,
    Numeric,
    NonNumeric,
}

pub open spec fn has_kind(t: TokenView, k: Kind) -> bool {
    match k {
        Kind::Separator => is_separator(t),
        Kind::Dot => is_dot(t),
        Kind::Plain => is_plain(t),
        Kind::Quoted => is_quoted(t),
        Kind::Numeric => is_numeric(t),
        Kind::NonNumeric => is_non_numeric(t),
    }
}

/// How many tokens of `ts` are of kind `k`.
pub open spec fn count_kind(ts: Seq<TokenView>, k: Kind) -> nat
    decreases ts.len(),
{
    if ts.len() == 0 {
        0
    } else {
        count_kind(ts.drop_last(), k) + if has_kind(ts.last(), k) {
            1nat
        } else {
            0nat
        }
    }
}

pub open spec fn is_separator(t: TokenView) -> bool {
    t is Separator
}

pub open spec fn is_dot(t: TokenView) -> bool {
    t is Dot
}

pub open spec fn is_plain(t: TokenView) -> bool {
    t is Ident
}

pub open spec fn is_quoted(t: TokenView) -> bool {
    t is QuotedIdent
}

pub open spec fn is_digit(c: char) -> bool {
    '0' <= c <= '9'
}

pub open spec fn all_digits(s: Seq<char>) -> bool {
    forall|j: int| 0 <= j < s.len() ==> is_digit(#[trigger] s[j])
}

/// A plain identifier made of digits only.
pub open spec fn is_numeric(t: TokenView) -> bool {
    match t {
        TokenView::Ident(s) => all_digits(s),
        _ => false,
    }
}

/// A token of the value side that is neither a dot nor numeric.
pub open spec fn is_non_numeric(t: TokenView) -> bool {
    !is_dot(t) && !is_numeric(t)
}

/// The position of the first separator of `ts` (its length if there is none).
pub open spec fn first_separator(ts: Seq<TokenView>) -> int
    decreases ts.len(),
{
    if ts.len() == 0 {
        0
    } else if ts[0] is Separator {
        0
    } else {
        1 + first_separator(ts.subrange(1, ts.len() as int))
    }
}

/// The tokens left of the separator.
pub open spec fn left_side(ts: Seq<TokenView>) -> Seq<TokenView> {
    ts.take(first_separator(ts))
}

/// The tokens right of the separator.
pub open spec fn right_side(ts: Seq<TokenView>) -> Seq<TokenView> {
    if first_separator(ts) < ts.len() {
        ts.skip(first_separator(ts) + 1)
    } else {
        Seq::empty()
    }
}

/// The first violation of a line's shape: exactly one separator, a plain identifier last on
/// the left, and a plain or quoted identifier last on the right (if anything stands there).
pub open spec fn line_structure_error(ts: Seq<TokenView>) -> Option<LineStructureError> {
    let n = count_kind(ts, Kind::Separator);
    if n == 0 {
        Some(LineStructureError::MissingSeparators)
    } else if n > 1 {
        Some(LineStructureError::MultipleSeparators)
    } else {
        let left = left_side(ts);
        let right = right_side(ts);
        if left.len() == 0 {
            Some(LineStructureError::MissingLeftSide)
        } else if !(left.last() is Ident) {
            Some(LineStructureError::LeftSideMustBeIdent)
        } else if right.len() > 0 && !(right.last() is Ident || right.last() is QuotedIdent) {
            Some(LineStructureError::RightSideContainsInvalidTokens)
        } else {
            None
        }
    }
}

/// The first violation of one key segment's shape.
pub open spec fn segment_error(s: Seq<char>) -> Option<KeyErrorView> {
    if s.len() > 0 && s[0] == '-' {
        Some(KeyErrorView::InvalidKeyStartsWithHyphen(s))
    } else if s.len() > 0 && s.last() == '-' {
        Some(KeyErrorView::InvalidKeyEndsWithHyphen(s))
    } else if s.len() > 0 && is_digit(s[0]) {
        Some(KeyErrorView::KeyCannotBeNumeric(s))
    } else {
        None
    }
}

/// The first violation of a key whose segment is expected at `i`: the key must read
/// identifier, then (dot, identifier) any number of times.
pub open spec fn key_error_from(ts: Seq<TokenView>, i: int) -> Option<KeyErrorView>
    decreases ts.len() - i,
{
    if i < 0 || i >= ts.len() {
        Some(KeyErrorView::UnexpectedTokenInKey)
    } else {
        match ts[i] {
            TokenView::Ident(name) => match segment_error(name) {
                Some(e) => Some(e),
                None => if i + 1 >= ts.len() {
                    None
                } else if ts[i + 1] is Dot {
                    key_error_from(ts, i + 2)
                } else {
                    Some(KeyErrorView::UnexpectedTokenInKey)
                },
            },
            _ => Some(KeyErrorView::UnexpectedTokenInKey),
        }
    }
}

pub open spec fn key_error(ts: Seq<TokenView>) -> Option<KeyErrorView> {
    key_error_from(ts, 0)
}

/// Two numeric tokens stand next to each other.
pub open spec fn has_adjacent_numeric(ts: Seq<TokenView>) -> bool {
    exists|j: int| 0 <= j && j + 1 < ts.len() && is_numeric(#[trigger] ts[j]) && is_numeric(ts[j + 1])
}

/// The first violation of the value side. The one legal shape of several tokens is a run of
/// numeric identifiers with at most one dot between them, not ending with the dot.
pub open spec fn value_error(ts: Seq<TokenView>) -> Option<ValueError> {
    let quoted = count_kind(ts, Kind::Quoted);
    let plain = count_kind(ts, Kind::Plain);
    let dots = count_kind(ts, Kind::Dot);
    let numeric = count_kind(ts, Kind::Numeric);
    let non_numeric = count_kind(ts, Kind::NonNumeric);
    if ts.len() == 0 {
        None
    } else if ts.len() == 1 {
        if ts[0] is Dot {
            Some(ValueError::InvalidValueFormat)
        } else {
            None
        }
    } else if quoted > 1 {
        Some(ValueError::MultipleQuotedIdents)
    } else if plain > 0 && quoted > 0 {
        Some(ValueError::MultipleMixedIdents)
    } else if dots > 1 {
        Some(ValueError::MultipleDots)
    } else if ts.last() is Dot {
        Some(ValueError::InvalidValueFormat)
    } else if non_numeric > 1 {
        Some(ValueError::MultipleNonNumericIdents)
    } else if dots > 0 && non_numeric > 0 {
        Some(ValueError::InvalidValueFormat)
    } else if numeric > 0 && non_numeric > 0 {
        Some(ValueError::InvalidValueFormat)
    } else if has_adjacent_numeric(ts) {
        Some(ValueError::InvalidValueFormat)
    } else {
        None
    }
}

proof fn lemma_count_step(ts: Seq<TokenView>, i: int, k: Kind)
    requires
        0 <= i < ts.len(),
    ensures
        count_kind(ts.take(i + 1), k) == count_kind(ts.take(i), k) + if has_kind(ts[i], k) {
            1nat
        } else {
            0nat
        },
{
    assert(ts.take(i + 1).drop_last() =~= ts.take(i));
}

pub proof fn lemma_first_separator(ts: Seq<TokenView>, p: int)
    requires
        0 <= p < ts.len(),
        ts[p] is Separator,
        forall|j: int| 0 <= j < p ==> !(ts[j] is Separator),
    ensures
        first_separator(ts) == p,
    decreases p,
{
    if p > 0 {
        let rest = ts.subrange(1, ts.len() as int);
        assert forall|j: int| 0 <= j < p - 1 implies !(rest[j] is Separator) by {
            assert(rest[j] == ts[j + 1]);
        }
        lemma_first_separator(rest, p - 1);
    }
}

/// Whether `s` is made of ASCII digits only (the empty string included).
pub fn is_all_digits(s: &String) -> (r: bool)
    ensures
        r == all_digits(s@),
{
    let cs = chars_of(s.as_str());
    let mut i: usize = 0;
    while i < cs.len()
        invariant
            cs@ == s@,
            i <= cs@.len(),
            forall|j: int| 0 <= j < i ==> is_digit(#[trigger] cs@[j]),
        decreases cs@.len() - i,
    {
        let c = cs[i];
        if !('0' <= c && c <= '9') {
            return false;
        }
        i += 1;
    }
    true
}

/// Whether `t` is a plain identifier made of digits only.
pub fn token_is_numeric(t: &Token) -> (r: bool)
    ensures
        r == is_numeric(t@),
{
    match t {
        Token::Ident(name) => is_all_digits(name),
        _ => false,
    }
}

/// Checks the shape of one line: exactly one separator, a plain identifier last on its left,
/// and a plain or quoted identifier (or nothing) last on its right.
pub fn check_line_structure(tokens: &[Token]) -> (r: Result<(), LineStructureError>)
    ensures
        r == match line_structure_error(views(tokens@)) {
            None => Ok::<(), LineStructureError>(()),
            Some(e) => Err(e),
        },
{
    let ghost v = views(tokens@);
    let n = tokens.len();
    let mut count: usize = 0;
    let mut pos: usize = n;
    let mut i: usize = 0;
    while i < n
        invariant
            n == tokens@.len(),
            v == views(tokens@),
            i <= n,
            count <= i,
            pos <= n,
            count == count_kind(v.take(i as int), Kind::Separator),
            pos == n ==> count == 0,
            pos < n ==> count >= 1,
            pos < n ==> (pos < i && v[pos as int] is Separator && forall|j: int|
                0 <= j < pos ==> !(#[trigger] v[j] is Separator)),
            pos == n ==> forall|j: int| 0 <= j < i ==> !(#[trigger] v[j] is Separator),
        decreases n - i,
    {
        proof {
            lemma_count_step(v, i as int, Kind::Separator);
        }
        if matches!(tokens[i], Token::Separator) {
            if pos == n {
                pos = i;
            }
            count += 1;
        }
        i += 1;
    }
    assert(v.take(n as int) =~= v);
    if count == 0 {
        return Err(LineStructureError::MissingSeparators);
    }
    if count > 1 {
        return Err(LineStructureError::MultipleSeparators);
    }
    proof {
        lemma_first_separator(v, pos as int);
    }
    if pos == 0 {
        return Err(LineStructureError::MissingLeftSide);
    }
    if !matches!(tokens[pos - 1], Token::Ident(_)) {
        return Err(LineStructureError::LeftSideMustBeIdent);
    }
    if pos + 1 < n {
        assert(right_side(v).last() == v[n - 1]);
        if !matches!(tokens[n - 1], Token::Ident(_) | Token::QuotedIdent(_)) {
            return Err(LineStructureError::RightSideContainsInvalidTokens);
        }
    }
    Ok(())
}

/// Checks one key segment: no leading or trailing hyphen, no leading digit.
pub fn check_segment(name: &String) -> (r: Result<(), KeyError>)
    ensures
        match segment_error(name@) {
            None => r is Ok,
            Some(e) => r matches Err(f) && f@ == e,
        },
{
    let cs = chars_of(name.as_str());
    let n = cs.len();
    if n > 0 && cs[0] == '-' {
        return Err(KeyError::InvalidKeyStartsWithHyphen { key_part: copy_string(name) });
    }
    if n > 0 && cs[n - 1] == '-' {
        return Err(KeyError::InvalidKeyEndsWithHyphen { key_part: copy_string(name) });
    }
    if n > 0 && '0' <= cs[0] && cs[0] <= '9' {
        return Err(KeyError::KeyCannotBeNumeric { key_part: copy_string(name) });
    }
    Ok(())
}

/// Checks a key: identifier, then (dot, identifier) any number of times, each segment
/// well-formed.
pub fn check_key(tokens: &[Token]) -> (r: Result<(), KeyError>)
    ensures
        match key_error(views(tokens@)) {
            None => r is Ok,
            Some(e) => r matches Err(f) && f@ == e,
        },
{
    let ghost v = views(tokens@);
    let n = tokens.len();
    let mut i: usize = 0;
    loop
        invariant
            n == tokens@.len(),
            v == views(tokens@),
            i <= n,
            key_error(v) == key_error_from(v, i as int),
        decreases n - i,
    {
        if i >= n {
            return Err(KeyError::UnexpectedTokenInKey);
        }
        match &tokens[i] {
            Token::Ident(name) => {
                match check_segment(name) {
                    Err(e) => {
                        return Err(e);
                    },
                    Ok(()) => {},
                }
                if i + 1 >= n {
                    return Ok(());
                }
                if matches!(tokens[i + 1], Token::Dot) {
                    i += 2;
                } else {
                    return Err(KeyError::UnexpectedTokenInKey);
                }
            },
            _ => {
                return Err(KeyError::UnexpectedTokenInKey);
            },
        }
    }
}

/// Checks the value side of a line (see `value_error`).
pub fn check_value(tokens: &[Token]) -> (r: Result<(), ValueError>)
    ensures
        r == match value_error(views(tokens@)) {
            None => Ok::<(), ValueError>(()),
            Some(e) => Err(e),
        },
{
    let ghost v = views(tokens@);
    let n = tokens.len();
    if n == 0 {
        return Ok(());
    }
    if n == 1 {
        if matches!(tokens[0], Token::Dot) {
            return Err(ValueError::InvalidValueFormat);
        }
        return Ok(());
    }
    let mut quoted: usize = 0;
    let mut plain: usize = 0;
    let mut dots: usize = 0;
    let mut numeric: usize = 0;
    let mut non_numeric: usize = 0;
    let mut prev_numeric = false;
    let mut adjacent = false;
    let mut i: usize = 0;
    while i < n
        invariant
            n == tokens@.len(),
            v == views(tokens@),
            i <= n,
            quoted <= i && plain <= i && dots <= i && numeric <= i && non_numeric <= i,
            quoted == count_kind(v.take(i as int), Kind::Quoted),
            plain == count_kind(v.take(i as int), Kind::Plain),
            dots == count_kind(v.take(i as int), Kind::Dot),
            numeric == count_kind(v.take(i as int), Kind::Numeric),
            non_numeric == count_kind(v.take(i as int), Kind::NonNumeric),
            prev_numeric == (i > 0 && is_numeric(v[i - 1])),
            adjacent == exists|j: int|
                0 <= j && j + 1 < i && is_numeric(#[trigger] v[j]) && is_numeric(v[j + 1]),
        decreases n - i,
    {
        proof {
            lemma_count_step(v, i as int, Kind::Quoted);
            lemma_count_step(v, i as int, Kind::Plain);
            lemma_count_step(v, i as int, Kind::Dot);
            lemma_count_step(v, i as int, Kind::Numeric);
            lemma_count_step(v, i as int, Kind::NonNumeric);
        }
        let t = &tokens[i];
        let is_num = token_is_numeric(t);
        match t {
            Token::QuotedIdent(_) => {
                quoted += 1;
            },
            Token::Ident(_) => {
                plain += 1;
            },
            Token::Dot => {
                dots += 1;
            },
            _ => {},
        }
        let is_dot = matches!(t, Token::Dot);
        if is_num {
            numeric += 1;
        } else if !is_dot {
            non_numeric += 1;
        }
        let ghost old_adjacent = adjacent;
        if prev_numeric && is_num {
            adjacent = true;
            assert(is_numeric(v[i - 1]) && is_numeric(v[(i - 1) + 1]));
        } else {
            assert forall|j: int|
                0 <= j && j + 1 < i + 1 && is_numeric(#[trigger] v[j]) implies !is_numeric(v[j + 1])
                || (j + 1 < i && old_adjacent) by {
                if j + 1 == i {
                    assert(j == i - 1);
                }
            }
        }
        prev_numeric = is_num;
        i += 1;
    }
    assert(v.take(n as int) =~= v);
    if quoted > 1 {
        return Err(ValueError::MultipleQuotedIdents);
    }
    if plain > 0 && quoted > 0 {
        return Err(ValueError::MultipleMixedIdents);
    }
    if dots > 1 {
        return Err(ValueError::MultipleDots);
    }
    if matches!(tokens[n - 1], Token::Dot) {
        return Err(ValueError::InvalidValueFormat);
    }
    if non_numeric > 1 {
        return Err(ValueError::MultipleNonNumericIdents);
    }
    if dots > 0 && non_numeric > 0 {
        return Err(ValueError::InvalidValueFormat);
    }
    if numeric > 0 && non_numeric > 0 {
        return Err(ValueError::InvalidValueFormat);
    }
    if adjacent {
        return Err(ValueError::InvalidValueFormat);
    }
    Ok(())
}

} // verus!
