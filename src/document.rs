//! Checks on a whole document: repeated key paths, paths that are both a leaf and a branch,
//! and the dialect's rule on raw values.
use vstd::prelude::*;

use crate::error::{KeyError, SyntaxValidationError, SyntaxValidationErrorView, ValueError};
use crate::grammar::{check_key, check_value, key_error, value_error};
use crate::syntax::{texts, PatternView, Syntax, SyntaxValue, SyntaxValueView};
use crate::text::{chars_of, same_chars, string_of};
use crate::token::{views, Token};

verus! {

/// The segments of a key path joined with dots.
pub open spec fn join_path(parts: Seq<Seq<char>>) -> Seq<char>
    decreases parts.len(),
{
    if parts.len() == 0 {
        Seq::empty()
    } else if parts.len() == 1 {
        parts[0]
    } else {
        join_path(parts.drop_last()).push('.') + parts.last()
    }
}

/// The dotted key paths of a list of statements.
pub open spec fn paths_of(ps: Seq<PatternView>) -> Seq<Seq<char>> {
    ps.map_values(|p: PatternView| join_path(p.key))
}

/// The contents of a sequence of character vectors.
pub open spec fn char_views(v: Seq<Vec<char>>) -> Seq<Seq<char>> {
    v.map_values(|p: Vec<char>| p@)
}

/// The path at `j` repeats an earlier one.
pub open spec fn repeats_earlier(paths: Seq<Seq<char>>, j: int) -> bool {
    exists|i: int| 0 <= i < j && paths[i] == #[trigger] paths[j]
}

/// The first path, from `j` on, that repeats an earlier one.
pub open spec fn first_duplicate_from(paths: Seq<Seq<char>>, j: int) -> Option<Seq<char>>
    decreases paths.len() - j,
{
    if j < 0 || j >= paths.len() {
        None
    } else if repeats_earlier(paths, j) {
        Some(paths[j])
    } else {
        first_duplicate_from(paths, j + 1)
    }
}

/// `path` followed by a dot begins `other`.
pub open spec fn is_parent_of(path: Seq<char>, other: Seq<char>) -> bool {
    path.push('.').is_prefix_of(other)
}

/// Another path of the document lies below the path at `i`.
pub open spec fn has_descendant(paths: Seq<Seq<char>>, i: int) -> bool {
    exists|j: int| 0 <= j < paths.len() && #[trigger] paths[j] != paths[i] && is_parent_of(paths[i], paths[j])
}

/// The first path, from `i` on, that has another path below it.
pub open spec fn first_conflict_from(paths: Seq<Seq<char>>, i: int) -> Option<Seq<char>>
    decreases paths.len() - i,
{
    if i < 0 || i >= paths.len() {
        None
    } else if has_descendant(paths, i) {
        Some(paths[i])
    } else {
        first_conflict_from(paths, i + 1)
    }
}

/// The rule that a dialect sets on raw values.
pub trait ValidationRule {
    spec fn spec_allows(value: SyntaxValueView) -> bool;

    fn validate_value(value: &SyntaxValue) -> (r: Result<(), SyntaxValidationError>)
        ensures
            r is Ok <==> Self::spec_allows(value@),
            r matches Err(e) ==> e is QuotedNotAllowed,
    ;
}

/// Configuration documents take plain and quoted values.
pub struct ConfigRule;

impl ValidationRule for ConfigRule {
    open spec fn spec_allows(value: SyntaxValueView) -> bool {
        true
    }

    fn validate_value(value: &SyntaxValue) -> (r: Result<(), SyntaxValidationError>) {
        Ok(())
    }
}

/// Schema documents take plain values (type names) only.
pub struct SchemaRule;

impl ValidationRule for SchemaRule {
    open spec fn spec_allows(value: SyntaxValueView) -> bool {
        value is Plain
    }

    fn validate_value(value: &SyntaxValue) -> (r: Result<(), SyntaxValidationError>) {
        match value {
            SyntaxValue::Quoted(_) => Err(SyntaxValidationError::QuotedNotAllowed),
            SyntaxValue::Plain(_) => Ok(()),
        }
    }
}

/// The first document-level failure: a repeated path, then a path with another below it, then
/// a raw value that the dialect's rule refuses.
pub open spec fn document_error<R: ValidationRule>(ps: Seq<PatternView>) -> Option<
    SyntaxValidationErrorView,
> {
    let paths = paths_of(ps);
    match first_duplicate_from(paths, 0) {
        Some(k) => Some(SyntaxValidationErrorView::Duplicate(k)),
        None => match first_conflict_from(paths, 0) {
            Some(k) => Some(SyntaxValidationErrorView::KeyPathConflict(k)),
            None => if forall|i: int| 0 <= i < ps.len() ==> R::spec_allows(#[trigger] ps[i].value) {
                None
            } else {
                Some(SyntaxValidationErrorView::QuotedNotAllowed)
            },
        },
    }
}

/// The key path of `parts` joined with dots.
pub fn join_key(parts: &Vec<String>) -> (r: Vec<char>)
    ensures
        r@ == join_path(texts(parts@)),
{
    let ghost t = texts(parts@);
    let n = parts.len();
    let mut out: Vec<char> = Vec::new();
    let mut i: usize = 0;
    while i < n
        invariant
            n == parts@.len(),
            t == texts(parts@),
            i <= n,
            out@ == join_path(t.take(i as int)),
        decreases n - i,
    {
        assert(t.take(i + 1).drop_last() =~= t.take(i as int));
        let cs = chars_of(parts[i].as_str());
        if i > 0 {
            out.push('.');
        } else {
            assert(out@ =~= Seq::<char>::empty());
        }
        let ghost before = out@;
        crate::analyzer::push_all(&mut out, &cs);
        assert(t.take(i + 1).last() == cs@);
        i += 1;
    }
    assert(t.take(n as int) =~= t);
    out
}

/// The dotted key paths of the statements.
pub fn document_paths(syntax: &Syntax) -> (r: Vec<Vec<char>>)
    ensures
        char_views(r@) == paths_of(syntax@),
{
    let n = syntax.patterns.len();
    let mut r: Vec<Vec<char>> = Vec::new();
    let mut i: usize = 0;
    while i < n
        invariant
            n == syntax.patterns@.len(),
            i <= n,
            char_views(r@) == paths_of(syntax@).take(i as int),
        decreases n - i,
    {
        let ghost before = r@;
        let path = join_key(&syntax.patterns[i].key_parts);
        assert(syntax@[i as int] == syntax.patterns@[i as int]@);
        assert(paths_of(syntax@)[i as int] == path@);
        let ghost pv = path@;
        r.push(path);
        assert(char_views(r@) =~= char_views(before).push(pv));
        assert(paths_of(syntax@).take(i + 1) =~= paths_of(syntax@).take(i as int).push(pv));
        i += 1;
    }
    assert(paths_of(syntax@).take(n as int) =~= paths_of(syntax@));
    r
}

/// Whether `path` followed by a dot begins `other`.
pub fn parent_of(path: &Vec<char>, other: &Vec<char>) -> (r: bool)
    ensures
        r == is_parent_of(path@, other@),
{
    let n = path.len();
    if other.len() <= n {
        assert(path@.push('.').len() > other@.len());
        return false;
    }
    let mut i: usize = 0;
    while i < n
        invariant
            n == path@.len(),
            n < other@.len(),
            i <= n,
            forall|j: int| 0 <= j < i ==> path@[j] == other@[j],
        decreases n - i,
    {
        if path[i] != other[i] {
            assert(path@.push('.')[i as int] != other@[i as int]);
            return false;
        }
        i += 1;
    }
    let r = other[n] == '.';
    assert(r == is_parent_of(path@, other@)) by {
        if r {
            assert forall|j: int| 0 <= j < path@.push('.').len() implies path@.push('.')[j] == other@[j] by {}
        } else {
            assert(path@.push('.')[n as int] != other@[n as int]);
        }
    }
    r
}

/// The first path that repeats an earlier one.
pub fn find_duplicate(paths: &Vec<Vec<char>>) -> (r: Option<usize>)
    ensures
        match first_duplicate_from(char_views(paths@), 0) {
            None => r is None,
            Some(k) => r matches Some(j) && j < paths@.len() && paths@[j as int]@ == k,
        },
{
    let ghost ps = char_views(paths@);
    let n = paths.len();
    let mut j: usize = 0;
    while j < n
        invariant
            n == paths@.len(),
            ps == char_views(paths@),
            j <= n,
            first_duplicate_from(ps, 0) == first_duplicate_from(ps, j as int),
        decreases n - j,
    {
        let mut i: usize = 0;
        while i < j
            invariant
                n == paths@.len(),
                ps == char_views(paths@),
                i <= j < n,
                first_duplicate_from(ps, 0) == first_duplicate_from(ps, j as int),
                forall|k: int| 0 <= k < i ==> ps[k] != ps[j as int],
            decreases j - i,
        {
            if same_chars(&paths[i], &paths[j]) {
                assert(ps[i as int] == ps[j as int]);
                assert(repeats_earlier(ps, j as int));
                return Some(j);
            }
            assert(ps[i as int] == paths@[i as int]@ && ps[j as int] == paths@[j as int]@);
            i += 1;
        }
        assert(!repeats_earlier(ps, j as int));
        j += 1;
    }
    None
}

/// The first path that has another path below it.
pub fn find_conflict(paths: &Vec<Vec<char>>) -> (r: Option<usize>)
    ensures
        match first_conflict_from(char_views(paths@), 0) {
            None => r is None,
            Some(k) => r matches Some(i) && i < paths@.len() && paths@[i as int]@ == k,
        },
{
    let ghost ps = char_views(paths@);
    let n = paths.len();
    let mut i: usize = 0;
    while i < n
        invariant
            n == paths@.len(),
            ps == char_views(paths@),
            i <= n,
            first_conflict_from(ps, 0) == first_conflict_from(ps, i as int),
        decreases n - i,
    {
        let mut j: usize = 0;
        while j < n
            invariant
                n == paths@.len(),
                ps == char_views(paths@),
                i < n,
                j <= n,
                first_conflict_from(ps, 0) == first_conflict_from(ps, i as int),
                forall|k: int| 0 <= k < j ==> !(#[trigger] ps[k] != ps[i as int] && is_parent_of(ps[i as int], ps[k])),
            decreases n - j,
        {
            if !same_chars(&paths[j], &paths[i]) && parent_of(&paths[i], &paths[j]) {
                assert(ps[j as int] != ps[i as int] && is_parent_of(ps[i as int], ps[j as int]));
                assert(has_descendant(ps, i as int));
                return Some(i);
            }
            assert(ps[j as int] == paths@[j as int]@ && ps[i as int] == paths@[i as int]@);
            j += 1;
        }
        assert(!has_descendant(ps, i as int));
        i += 1;
    }
    None
}

/// Whole-document checks, and the key and value rules of a line.
pub struct SyntaxValidator;

impl SyntaxValidator {
    /// Checks a key: identifier, then (dot, identifier) any number of times, each segment
    /// without a leading or trailing hyphen and not starting with a digit.
    pub fn validate_key(tokens: &[Token]) -> (r: Result<(), KeyError>)
        ensures
            match key_error(views(tokens@)) {
                None => r is Ok,
                Some(e) => r matches Err(f) && f@ == e,
            },
    {
        check_key(tokens)
    }

    /// Checks the value side of a line: the only legal run of several tokens is numeric
    /// identifiers joined by at most one dot.
    pub fn validate_value(tokens: &[Token]) -> (r: Result<(), ValueError>)
        ensures
            r == match value_error(views(tokens@)) {
                None => Ok::<(), ValueError>(()),
                Some(e) => Err(e),
            },
    {
        check_value(tokens)
    }

    /// Rejects the first key path that repeats an earlier one.
    pub fn validate_duplicate_keys(syntax: &Syntax) -> (r: Result<(), SyntaxValidationError>)
        ensures
            match first_duplicate_from(paths_of(syntax@), 0) {
                None => r is Ok,
                Some(k) => r matches Err(e) && e@ == SyntaxValidationErrorView::Duplicate(k),
            },
    {
        let paths = document_paths(syntax);
        match find_duplicate(&paths) {
            None => Ok(()),
            Some(j) => Err(SyntaxValidationError::Duplicate { key: string_of(&paths[j]) }),
        }
    }

    /// Rejects the first key path that has another path of the document below it.
    pub fn validate_key_path_conflicts(syntax: &Syntax) -> (r: Result<(), SyntaxValidationError>)
        ensures
            match first_conflict_from(paths_of(syntax@), 0) {
                None => r is Ok,
                Some(k) => r matches Err(e) && e@ == SyntaxValidationErrorView::KeyPathConflict(k),
            },
    {
        let paths = document_paths(syntax);
        match find_conflict(&paths) {
            None => Ok(()),
            Some(i) => Err(SyntaxValidationError::KeyPathConflict { key: string_of(&paths[i]) }),
        }
    }

    /// Runs the document checks in order: repeated paths, conflicting paths, then the rule `R`
    /// on every raw value.
    pub fn validate<R: ValidationRule>(syntax: &Syntax) -> (r: Result<(), SyntaxValidationError>)
        ensures
            match document_error::<R>(syntax@) {
                None => r is Ok,
                Some(e) => r matches Err(f) && f@ == e,
            },
    {
        match Self::validate_duplicate_keys(syntax) {
            Err(e) => {
                return Err(e);
            },
            Ok(()) => {},
        }
        match Self::validate_key_path_conflicts(syntax) {
            Err(e) => {
                return Err(e);
            },
            Ok(()) => {},
        }
        let n = syntax.patterns.len();
        let mut i: usize = 0;
        while i < n
            invariant
                n == syntax.patterns@.len(),
                n == syntax@.len(),
                i <= n,
                first_duplicate_from(paths_of(syntax@), 0) is None,
                first_conflict_from(paths_of(syntax@), 0) is None,
                forall|k: int| 0 <= k < i ==> R::spec_allows(#[trigger] syntax@[k].value),
            decreases n - i,
        {
            assert(syntax@[i as int] == syntax.patterns@[i as int]@);
            match R::validate_value(&syntax.patterns[i].value) {
                Err(e) => {
                    assert(!R::spec_allows(syntax@[i as int].value));
                    return Err(e);
                },
                Ok(()) => {},
            }
            i += 1;
        }
        Ok(())
    }
}

/// Failures of a flat list of dotted paths declared for a generated structure.
#[derive(Debug)]
pub enum ConfigValidationError {
    Duplicate { key: String },
    KeyPathConflict { key: String },
}

/// Applies the repeated-path and conflicting-path rules to a flat list of declared paths.
pub struct ConfigValidator;

impl ConfigValidator {
    /// Rejects the first path that repeats an earlier one, then the first path that has
    /// another path below it; each path is given by its segments.
    pub fn validate(fields: &Vec<Vec<String>>) -> (r: Result<(), ConfigValidationError>)
        ensures
            ({
                let paths = fields@.map_values(|f: Vec<String>| join_path(texts(f@)));
                match first_duplicate_from(paths, 0) {
                    Some(k) => r matches Err(ConfigValidationError::Duplicate { key }) && key@ == k,
                    None => match first_conflict_from(paths, 0) {
                        Some(k) => r matches Err(ConfigValidationError::KeyPathConflict { key })
                            && key@ == k,
                        None => r is Ok,
                    },
                }
            }),
    {
        let ghost want = fields@.map_values(|f: Vec<String>| join_path(texts(f@)));
        let n = fields.len();
        let mut paths: Vec<Vec<char>> = Vec::new();
        let mut i: usize = 0;
        while i < n
            invariant
                n == fields@.len(),
                want == fields@.map_values(|f: Vec<String>| join_path(texts(f@))),
                i <= n,
                char_views(paths@) == want.take(i as int),
            decreases n - i,
        {
            let ghost before = paths@;
            let path = join_key(&fields[i]);
            let ghost pv = path@;
            paths.push(path);
            assert(char_views(paths@) =~= char_views(before).push(pv));
            assert(want.take(i + 1) =~= want.take(i as int).push(pv));
            i += 1;
        }
        assert(want.take(n as int) =~= want);
        match find_duplicate(&paths) {
            Some(j) => {
                return Err(ConfigValidationError::Duplicate { key: string_of(&paths[j]) });
            },
            None => {},
        }
        match find_conflict(&paths) {
            Some(i) => Err(ConfigValidationError::KeyPathConflict { key: string_of(&paths[i]) }),
            None => Ok(()),
        }
    }
}

} // verus!
