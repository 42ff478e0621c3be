//! Builds a nested tree from a flat list of statements; shared by value and schema trees.
use vstd::prelude::*;

use crate::error::{ParseError, SyntaxValidationError};
use crate::schema::{schema_of_symbol, Schema};
use crate::syntax::{pattern_views, texts, PatternView, Syntax, SyntaxValue, SyntaxValueView};
use crate::text::{copy_string, same_chars};
use crate::value::{inferred, Value, ValueView};

verus! {

/// A tree whose branches map keys to subtrees; leaves are made from raw values.
pub trait DictLike: Sized {
    /// The entries of a branch; `None` for a leaf.
    spec fn spec_branch(&self) -> Option<Seq<(String, Self)>>;

    /// Whether a raw value names a leaf of this kind of tree.
    spec fn spec_convertible(v: SyntaxValueView) -> bool;

    /// `t` is the leaf made from the raw value `v`.
    spec fn spec_leaf_of(v: SyntaxValueView, t: Self) -> bool;

    fn from_map(map: Vec<(String, Self)>) -> (r: Self)
        ensures
            r.spec_branch() == Some(map@),
    ;

    fn into_map(self) -> (r: Option<Vec<(String, Self)>>)
        ensures
            match self.spec_branch() {
                Some(es) => r matches Some(m) && m@ == es,
                None => r is None,
            },
    ;

    fn from_syntax(v: &SyntaxValue) -> (r: Option<Self>)
        ensures
            match r {
                Some(t) => Self::spec_convertible(v@) && Self::spec_leaf_of(v@, t) && t.spec_branch()
                    is None,
                None => !Self::spec_convertible(v@),
            },
    ;
}

impl DictLike for Value {
    open spec fn spec_branch(&self) -> Option<Seq<(String, Value)>> {
        match self {
            Value::Dict(es) => Some(es@),
            _ => None,
        }
    }

    open spec fn spec_convertible(v: SyntaxValueView) -> bool {
        true
    }

    open spec fn spec_leaf_of(v: SyntaxValueView, t: Value) -> bool {
        t@ == match v {
            SyntaxValueView::Plain(s) => inferred(s),
            SyntaxValueView::Quoted(s) => ValueView::Str(s),
        }
    }

    fn from_map(map: Vec<(String, Value)>) -> (r: Value) {
        Value::Dict(map)
    }

    fn into_map(self) -> (r: Option<Vec<(String, Value)>>) {
        match self {
            Value::Dict(es) => Some(es),
            _ => None,
        }
    }

    fn from_syntax(v: &SyntaxValue) -> (r: Option<Value>) {
        match v {
            SyntaxValue::Plain(s) => Some(Value::from_plain_string(copy_string(s))),
            SyntaxValue::Quoted(s) => Some(Value::String(copy_string(s))),
        }
    }
}

impl DictLike for Schema {
    open spec fn spec_branch(&self) -> Option<Seq<(String, Schema)>> {
        match self {
            Schema::Dict(es) => Some(es@),
            _ => None,
        }
    }

    open spec fn spec_convertible(v: SyntaxValueView) -> bool {
        match v {
            SyntaxValueView::Plain(s) => schema_of_symbol(s) is Some,
            SyntaxValueView::Quoted(_) => false,
        }
    }

    open spec fn spec_leaf_of(v: SyntaxValueView, t: Schema) -> bool {
        match v {
            SyntaxValueView::Plain(s) => schema_of_symbol(s) == Some(t@),
            SyntaxValueView::Quoted(_) => false,
        }
    }

    fn from_map(map: Vec<(String, Schema)>) -> (r: Schema) {
        Schema::Dict(map)
    }

    fn into_map(self) -> (r: Option<Vec<(String, Schema)>>) {
        match self {
            Schema::Dict(es) => Some(es),
            _ => None,
        }
    }

    fn from_syntax(v: &SyntaxValue) -> (r: Option<Schema>) {
        match v {
            SyntaxValue::Plain(s) => Schema::from_symbol(s.as_str()),
            SyntaxValue::Quoted(_) => None,
        }
    }
}

/// The position of the first entry with key `k`, or -1.
pub open spec fn key_position<T>(es: Seq<(String, T)>, k: Seq<char>) -> int
    decreases es.len(),
{
    if es.len() == 0 {
        -1
    } else {
        let p = key_position(es.drop_last(), k);
        if p >= 0 {
            p
        } else if es.last().0@ == k {
            es.len() - 1
        } else {
            -1
        }
    }
}

/// The subtree that a key path leads to from a branch's entries.
pub open spec fn get_path<T: DictLike>(es: Seq<(String, T)>, path: Seq<Seq<char>>) -> Option<T>
    decreases path.len(),
{
    if path.len() == 0 {
        None
    } else {
        let i = key_position(es, path[0]);
        if i < 0 {
            None
        } else if path.len() == 1 {
            Some(es[i].1)
        } else {
            match es[i].1.spec_branch() {
                Some(sub) => get_path(sub, path.drop_first()),
                None => None,
            }
        }
    }
}

/// One key path begins the other.
pub open spec fn related(p: Seq<Seq<char>>, q: Seq<Seq<char>>) -> bool {
    p.is_prefix_of(q) || q.is_prefix_of(p)
}

/// No two entries share a key.
pub open spec fn unique_keys<T>(es: Seq<(String, T)>) -> bool {
    forall|i: int, j: int| 0 <= i < j < es.len() ==> (#[trigger] es[i]).0@ != (#[trigger] es[j]).0@
}

/// Every branch of the tree, the root's entries included, has unique keys.
pub open spec fn wf_tree<T: DictLike>(es: Seq<(String, T)>) -> bool {
    &&& unique_keys(es)
    &&& forall|q: Seq<Seq<char>>|
        q.len() >= 1 && (#[trigger] get_path(es, q)) is Some && get_path(es, q)->0.spec_branch() is Some
            ==> unique_keys(get_path(es, q)->0.spec_branch()->0)
}

proof fn lemma_key_position_absent<T>(es: Seq<(String, T)>, k: Seq<char>)
    requires
        key_position(es, k) == -1,
    ensures
        forall|j: int| 0 <= j < es.len() ==> (#[trigger] es[j]).0@ != k,
    decreases es.len(),
{
    if es.len() > 0 {
        lemma_key_position_absent(es.drop_last(), k);
        assert forall|j: int| 0 <= j < es.len() implies (#[trigger] es[j]).0@ != k by {
            if j < es.len() - 1 {
                assert(es[j] == es.drop_last()[j]);
            }
        }
    }
}

/// A path that goes on past a leaf leads nowhere.
pub proof fn lemma_get_path_past_leaf<T: DictLike>(
    es: Seq<(String, T)>,
    p: Seq<Seq<char>>,
    q: Seq<Seq<char>>,
)
    requires
        p.len() >= 1,
        p.len() < q.len(),
        p.is_prefix_of(q),
        get_path(es, p) is Some,
        get_path(es, p)->0.spec_branch() is None,
    ensures
        get_path(es, q) is None,
    decreases p.len(),
{
    assert(p[0] == q[0]);
    if p.len() > 1 {
        let i = key_position(es, p[0]);
        let sub = es[i].1.spec_branch()->0;
        assert(p.drop_first().is_prefix_of(q.drop_first())) by {
            assert forall|j: int| 0 <= j < p.drop_first().len() implies p.drop_first()[j]
                == q.drop_first()[j] by {
                assert(p[j + 1] == q[j + 1]);
            }
        }
        lemma_get_path_past_leaf(sub, p.drop_first(), q.drop_first());
    }
}

/// The entries of the branch that the path `q` leads to (the root's entries for the empty path).
pub open spec fn branch_at<T: DictLike>(es: Seq<(String, T)>, q: Seq<Seq<char>>) -> Option<
    Seq<(String, T)>,
> {
    if q.len() == 0 {
        Some(es)
    } else {
        match get_path(es, q) {
            Some(t) => t.spec_branch(),
            None => None,
        }
    }
}

/// The keys of a branch's entries, in order.
pub open spec fn keys_of<T>(es: Seq<(String, T)>) -> Seq<Seq<char>> {
    es.map_values(|e: (String, T)| e.0@)
}

/// How inserting at path `p` changes the keys of the branch at `q`, a proper beginning of `p`:
/// they stay as they were if the next segment of `p` is among them, else that segment is
/// appended.
pub open spec fn keys_after_insert<T>(
    old_branch: Option<Seq<(String, T)>>,
    new_branch: Option<Seq<(String, T)>>,
    next: Seq<char>,
) -> bool {
    let ob = match old_branch {
        Some(b) => b,
        None => Seq::empty(),
    };
    new_branch is Some && if key_position(ob, next) >= 0 {
        keys_of(new_branch->0) == keys_of(ob)
    } else {
        keys_of(new_branch->0) == keys_of(ob).push(next)
    }
}

/// The position of the first statement, from `k` on, whose key path begins with `r` (the number
/// of statements if there is none).
pub open spec fn first_through(ps: Seq<PatternView>, r: Seq<Seq<char>>, k: int) -> int
    decreases ps.len() - k,
{
    if k < 0 || k >= ps.len() {
        ps.len() as int
    } else if ps[k].key.len() >= 1 && r.is_prefix_of(ps[k].key) {
        k
    } else {
        first_through(ps, r, k + 1)
    }
}

/// The keys of the branch at `q` stand in the order in which statements first reach them.
pub open spec fn ordered_keys(ps: Seq<PatternView>, q: Seq<Seq<char>>, keys: Seq<Seq<char>>) -> bool {
    forall|a: int, b: int|
        0 <= a < b < keys.len() ==> first_through(ps, q.push(#[trigger] keys[a]), 0) < first_through(
            ps,
            q.push(#[trigger] keys[b]),
            0,
        )
}

/// In every branch of the tree, entries stand in the order in which statements first reach them.
pub open spec fn ordered<T: DictLike>(es: Seq<(String, T)>, ps: Seq<PatternView>) -> bool {
    forall|q: Seq<Seq<char>>|
        (#[trigger] branch_at(es, q)) is Some ==> ordered_keys(ps, q, keys_of(branch_at(es, q)->0))
}

proof fn lemma_first_through_le(ps: Seq<PatternView>, r: Seq<Seq<char>>, k0: int, k: int)
    requires
        0 <= k0 <= k < ps.len(),
        ps[k].key.len() >= 1,
        r.is_prefix_of(ps[k].key),
    ensures
        first_through(ps, r, k0) <= k,
    decreases k - k0,
{
    if k0 < k {
        lemma_first_through_le(ps, r, k0 + 1, k);
    }
}

proof fn lemma_first_through_at(ps: Seq<PatternView>, r: Seq<Seq<char>>, k0: int, i: int)
    requires
        0 <= k0 <= i < ps.len(),
        ps[i].key.len() >= 1,
        r.is_prefix_of(ps[i].key),
        forall|j: int| k0 <= j < i ==> !((#[trigger] ps[j]).key.len() >= 1 && r.is_prefix_of(ps[j].key)),
    ensures
        first_through(ps, r, k0) == i,
    decreases i - k0,
{
    if k0 < i {
        lemma_first_through_at(ps, r, k0 + 1, i);
    }
}

proof fn lemma_get_path_snoc<T: DictLike>(es: Seq<(String, T)>, q: Seq<Seq<char>>, k: Seq<char>)
    requires
        get_path(es, q.push(k)) is Some,
    ensures
        branch_at(es, q) is Some,
        key_position(branch_at(es, q)->0, k) >= 0,
    decreases q.len(),
{
    let qk = q.push(k);
    if q.len() == 0 {
        assert(qk[0] == k);
    } else {
        assert(qk[0] == q[0]);
        lemma_branch_at_cons(es, q);
        let i = key_position(es, q[0]);
        let sub = es[i].1.spec_branch()->0;
        assert(qk.drop_first() =~= q.drop_first().push(k));
        lemma_get_path_snoc(sub, q.drop_first(), k);
    }
}

proof fn lemma_entry_reachable<T: DictLike>(es: Seq<(String, T)>, q: Seq<Seq<char>>, a: int)
    requires
        branch_at(es, q) is Some,
        0 <= a < branch_at(es, q)->0.len(),
    ensures
        get_path(es, q.push(branch_at(es, q)->0[a].0@)) is Some,
    decreases q.len(),
{
    let b = branch_at(es, q)->0;
    let k = b[a].0@;
    let qk = q.push(k);
    if q.len() == 0 {
        assert(qk[0] == k);
        if key_position(es, k) == -1 {
            lemma_key_position_absent(es, k);
        }
        lemma_key_position_bounds(es, k);
    } else {
        assert(qk[0] == q[0]);
        lemma_branch_at_cons(es, q);
        let i = key_position(es, q[0]);
        let sub = es[i].1.spec_branch()->0;
        assert(qk.drop_first() =~= q.drop_first().push(k));
        lemma_entry_reachable(sub, q.drop_first(), a);
    }
}

/// Inserting the path of statement `i` keeps every branch in first-reach order.
proof fn lemma_insert_keeps_order<T: DictLike>(
    before: Seq<(String, T)>,
    after: Seq<(String, T)>,
    ps: Seq<PatternView>,
    i: int,
    leaf: T,
)
    requires
        0 <= i < ps.len(),
        ps[i].key.len() >= 1,
        ordered(before, ps),
        within_paths(before, ps, i),
        forall|k: int|
            0 <= k < i && (#[trigger] ps[k]).key.len() >= 1 ==> get_path(before, ps[k].key) is Some,
        forall|q: Seq<Seq<char>>|
            q.len() < ps[i].key.len() && q.is_prefix_of(ps[i].key) ==> keys_after_insert(
                #[trigger] branch_at(before, q),
                branch_at(after, q),
                ps[i].key[q.len() as int],
            ),
        get_path(after, ps[i].key) == Some(leaf),
        leaf.spec_branch() is None,
        forall|q: Seq<Seq<char>>|
            q.len() >= 1 && !related(q, ps[i].key) ==> #[trigger] get_path(after, q) == get_path(
                before,
                q,
            ),
    ensures
        ordered(after, ps),
{
    let key = ps[i].key;
    assert forall|q: Seq<Seq<char>>|
        (#[trigger] branch_at(after, q)) is Some implies ordered_keys(
        ps,
        q,
        keys_of(branch_at(after, q)->0),
    ) by {
        if q.len() < key.len() && q.is_prefix_of(key) {
            let nk = key[q.len() as int];
            let ob = match branch_at(before, q) {
                Some(b) => b,
                None => Seq::empty(),
            };
            assert(keys_after_insert(branch_at(before, q), branch_at(after, q), nk));
            if key_position(ob, nk) < 0 {
                let qn = q.push(nk);
                assert(qn.is_prefix_of(key)) by {
                    assert forall|j: int| 0 <= j < qn.len() implies qn[j] == key[j] by {}
                }
                assert forall|j: int|
                    0 <= j < i implies !((#[trigger] ps[j]).key.len() >= 1 && qn.is_prefix_of(
                        ps[j].key,
                    )) by {
                    if ps[j].key.len() >= 1 && qn.is_prefix_of(ps[j].key) {
                        lemma_prefix_reachable(before, ps[j].key, qn);
                        lemma_get_path_snoc(before, q, nk);
                    }
                }
                lemma_first_through_at(ps, qn, 0, i);
                let nkeys = keys_of(branch_at(after, q)->0);
                let okeys = keys_of(ob);
                assert forall|a: int, b: int|
                    0 <= a < b < nkeys.len() implies first_through(ps, q.push(#[trigger] nkeys[a]), 0)
                    < first_through(ps, q.push(#[trigger] nkeys[b]), 0) by {
                    assert(nkeys[a] == okeys[a]);
                    assert(branch_at(before, q) is Some);
                    assert(ordered_keys(ps, q, keys_of(branch_at(before, q)->0)));
                    lemma_entry_reachable(before, q, a);
                    let qa = q.push(okeys[a]);
                    assert(ob[a].0@ == okeys[a]);
                    let k = choose|k: int|
                        0 <= k < i && (#[trigger] ps[k]).key.len() >= 1 && qa.is_prefix_of(ps[k].key);
                    lemma_first_through_le(ps, qa, 0, k);
                    if b < okeys.len() {
                        assert(nkeys[b] == okeys[b]);
                    }
                }
            } else {
                assert(branch_at(before, q) is Some);
                assert(keys_of(branch_at(after, q)->0) == keys_of(branch_at(before, q)->0));
            }
        } else if related(q, key) {
            if q.len() == key.len() {
                assert(q =~= key);
            } else {
                lemma_get_path_past_leaf(after, key, q);
            }
        } else {
            assert(get_path(after, q) == get_path(before, q));
            assert(branch_at(after, q) == branch_at(before, q));
        }
    }
}

/// A path one segment longer than `q` leads to the entry with that key in the branch at `q`.
pub proof fn lemma_get_path_snoc_eq<T: DictLike>(
    es: Seq<(String, T)>,
    q: Seq<Seq<char>>,
    k: Seq<char>,
)
    ensures
        get_path(es, q.push(k)) == match branch_at(es, q) {
            Some(b) => if key_position(b, k) >= 0 {
                Some(b[key_position(b, k)].1)
            } else {
                None
            },
            None => None,
        },
    decreases q.len(),
{
    let qk = q.push(k);
    if q.len() == 0 {
        assert(qk[0] == k);
    } else {
        assert(qk[0] == q[0]);
        lemma_branch_at_cons(es, q);
        let i = key_position(es, q[0]);
        if i >= 0 && es[i].1.spec_branch() is Some {
            let sub = es[i].1.spec_branch()->0;
            assert(qk.drop_first() =~= q.drop_first().push(k));
            lemma_get_path_snoc_eq(sub, q.drop_first(), k);
        }
    }
}

/// In a branch without repeated keys, the key of entry `i` is found at `i`.
pub proof fn lemma_key_position_unique<T>(es: Seq<(String, T)>, i: int)
    requires
        0 <= i < es.len(),
        unique_keys(es),
    ensures
        key_position(es, es[i].0@) == i,
    decreases es.len(),
{
    let d = es.drop_last();
    if i < es.len() - 1 {
        assert forall|a: int, b: int| 0 <= a < b < d.len() implies (#[trigger] d[a]).0@ != (
        #[trigger] d[b]).0@ by {
            assert(d[a] == es[a] && d[b] == es[b]);
        }
        assert(d[i] == es[i]);
        lemma_key_position_unique(d, i);
    } else if key_position(d, es[i].0@) >= 0 {
        lemma_key_position_bounds(d, es[i].0@);
        let j = key_position(d, es[i].0@);
        assert(d[j] == es[j]);
    }
}

/// Two key sequences with the same keys, each in first-reach order, are equal.
pub proof fn lemma_ordered_keys_equal(
    ps: Seq<PatternView>,
    q: Seq<Seq<char>>,
    s1: Seq<Seq<char>>,
    s2: Seq<Seq<char>>,
)
    requires
        ordered_keys(ps, q, s1),
        ordered_keys(ps, q, s2),
        forall|x: Seq<char>| s1.contains(x) <==> s2.contains(x),
    ensures
        s1 == s2,
    decreases s1.len(),
{
    if s1.len() == 0 {
        if s2.len() > 0 {
            assert(s2.contains(s2[0]));
        }
        assert(s1 =~= s2);
    } else {
        assert(s1.contains(s1[0]));
        assert(s2.len() > 0);
        assert(s2.contains(s2[0]));
        if s1[0] != s2[0] {
            let a = choose|a: int| 0 <= a < s1.len() && s1[a] == s2[0];
            let b = choose|b: int| 0 <= b < s2.len() && s2[b] == s1[0];
            assert(first_through(ps, q.push(s1[0]), 0) < first_through(ps, q.push(s1[a]), 0));
            assert(first_through(ps, q.push(s2[0]), 0) < first_through(ps, q.push(s2[b]), 0));
        }
        let t1 = s1.drop_first();
        let t2 = s2.drop_first();
        assert forall|a: int, b: int| 0 <= a < b < t1.len() implies first_through(
            ps,
            q.push(#[trigger] t1[a]),
            0,
        ) < first_through(ps, q.push(#[trigger] t1[b]), 0) by {
            assert(t1[a] == s1[a + 1] && t1[b] == s1[b + 1]);
        }
        assert forall|a: int, b: int| 0 <= a < b < t2.len() implies first_through(
            ps,
            q.push(#[trigger] t2[a]),
            0,
        ) < first_through(ps, q.push(#[trigger] t2[b]), 0) by {
            assert(t2[a] == s2[a + 1] && t2[b] == s2[b + 1]);
        }
        assert forall|x: Seq<char>| t1.contains(x) <==> t2.contains(x) by {
            if t1.contains(x) {
                let a = choose|a: int| 0 <= a < t1.len() && t1[a] == x;
                assert(s1[a + 1] == x);
                assert(s1.contains(x));
                let b = choose|b: int| 0 <= b < s2.len() && s2[b] == x;
                assert(first_through(ps, q.push(s1[0]), 0) < first_through(ps, q.push(s1[a + 1]), 0));
                assert(b != 0);
                assert(t2[b - 1] == x);
            }
            if t2.contains(x) {
                let b = choose|b: int| 0 <= b < t2.len() && t2[b] == x;
                assert(s2[b + 1] == x);
                assert(s2.contains(x));
                let a = choose|a: int| 0 <= a < s1.len() && s1[a] == x;
                assert(first_through(ps, q.push(s2[0]), 0) < first_through(ps, q.push(s2[b + 1]), 0));
                assert(a != 0);
                assert(t1[a - 1] == x);
            }
        }
        lemma_ordered_keys_equal(ps, q, t1, t2);
        assert(s1 =~= seq![s1[0]] + t1);
        assert(s2 =~= seq![s2[0]] + t2);
    }
}

proof fn lemma_branch_at_cons<T: DictLike>(es: Seq<(String, T)>, q: Seq<Seq<char>>)
    requires
        q.len() >= 1,
    ensures
        branch_at(es, q) == if key_position(es, q[0]) >= 0 {
            match es[key_position(es, q[0])].1.spec_branch() {
                Some(sub) => branch_at(sub, q.drop_first()),
                None => None,
            }
        } else {
            None::<Seq<(String, T)>>
        },
{
    let i = key_position(es, q[0]);
    if i >= 0 && q.len() == 1 {
        assert(q.drop_first().len() == 0);
    }
}

/// Every non-empty beginning of a path that leads somewhere leads somewhere too.
pub proof fn lemma_prefix_reachable<T: DictLike>(
    es: Seq<(String, T)>,
    p: Seq<Seq<char>>,
    q: Seq<Seq<char>>,
)
    requires
        get_path(es, p) is Some,
        q.len() >= 1,
        q.is_prefix_of(p),
    ensures
        get_path(es, q) is Some,
    decreases q.len(),
{
    assert(q[0] == p[0]);
    if q.len() > 1 {
        let i = key_position(es, p[0]);
        let sub = es[i].1.spec_branch()->0;
        assert(q.drop_first().is_prefix_of(p.drop_first())) by {
            assert forall|j: int| 0 <= j < q.drop_first().len() implies q.drop_first()[j]
                == p.drop_first()[j] by {
                assert(q[j + 1] == p[j + 1]);
            }
        }
        lemma_prefix_reachable(sub, p.drop_first(), q.drop_first());
    }
}

proof fn lemma_wf_empty<T: DictLike>(es: Seq<(String, T)>)
    requires
        es.len() == 0,
    ensures
        wf_tree(es),
{
    assert forall|q: Seq<Seq<char>>| q.len() >= 1 implies (#[trigger] get_path(es, q)) is None by {
        assert(key_position(es, q[0]) == -1);
    }
}

proof fn lemma_unique_update<T>(es: Seq<(String, T)>, i: int, e: (String, T))
    requires
        unique_keys(es),
        0 <= i < es.len(),
        e.0@ == es[i].0@,
    ensures
        unique_keys(es.update(i, e)),
{
    let after = es.update(i, e);
    assert forall|a: int, b: int| 0 <= a < b < after.len() implies (#[trigger] after[a]).0@ != (
    #[trigger] after[b]).0@ by {
        assert(after[a].0@ == es[a].0@ && after[b].0@ == es[b].0@);
    }
}

proof fn lemma_unique_push<T>(es: Seq<(String, T)>, e: (String, T))
    requires
        unique_keys(es),
        key_position(es, e.0@) == -1,
    ensures
        unique_keys(es.push(e)),
{
    lemma_key_position_absent(es, e.0@);
    let after = es.push(e);
    assert forall|a: int, b: int| 0 <= a < b < after.len() implies (#[trigger] after[a]).0@ != (
    #[trigger] after[b]).0@ by {
        assert(after[a] == es[a]);
        if b < es.len() {
            assert(after[b] == es[b]);
        }
    }
}

/// The entries of a branch of a well-formed tree form a well-formed tree.
proof fn lemma_wf_child<T: DictLike>(es: Seq<(String, T)>, i: int, k: Seq<char>)
    requires
        wf_tree(es),
        0 <= i < es.len(),
        key_position(es, k) == i,
        es[i].1.spec_branch() is Some,
    ensures
        wf_tree(es[i].1.spec_branch()->0),
{
    let sub = es[i].1.spec_branch()->0;
    let one = seq![k];
    assert(get_path(es, one) == Some(es[i].1));
    assert forall|q: Seq<Seq<char>>|
        q.len() >= 1 && (#[trigger] get_path(sub, q)) is Some && get_path(sub, q)->0.spec_branch()
            is Some implies unique_keys(get_path(sub, q)->0.spec_branch()->0) by {
        let q2 = one + q;
        assert(q2.drop_first() =~= q);
        assert(q2[0] == k);
        assert(get_path(es, q2) == get_path(sub, q));
    }
}

/// A tree changed only at the entry with key `k`, which holds a leaf or a well-formed branch, is
/// well-formed if it was before and its keys are unique.
proof fn lemma_wf_after_set<T: DictLike>(
    before: Seq<(String, T)>,
    after: Seq<(String, T)>,
    idx: int,
    p: Seq<Seq<char>>,
)
    requires
        wf_tree(before),
        unique_keys(after),
        p.len() >= 1,
        0 <= idx < after.len(),
        key_position(after, p[0]) == idx,
        forall|q: Seq<Seq<char>>|
            q.len() >= 1 && !related(q, p) ==> #[trigger] get_path(after, q) == get_path(before, q),
        after[idx].1.spec_branch() is Some ==> wf_tree(after[idx].1.spec_branch()->0),
    ensures
        wf_tree(after),
{
    assert forall|q: Seq<Seq<char>>|
        q.len() >= 1 && (#[trigger] get_path(after, q)) is Some && get_path(after, q)->0.spec_branch()
            is Some implies unique_keys(get_path(after, q)->0.spec_branch()->0) by {
        if q[0] != p[0] {
            if q.is_prefix_of(p) {
                assert(q[0] == p[0]);
            }
            if p.is_prefix_of(q) {
                assert(p[0] == q[0]);
            }
            assert(get_path(after, q) == get_path(before, q));
        } else if q.len() >= 2 {
            let sub = after[idx].1.spec_branch()->0;
            assert(get_path(after, q) == get_path(sub, q.drop_first()));
        }
    }
}

pub proof fn lemma_key_position_bounds<T>(es: Seq<(String, T)>, k: Seq<char>)
    ensures
        -1 <= key_position(es, k) < es.len(),
        key_position(es, k) >= 0 ==> es[key_position(es, k)].0@ == k,
    decreases es.len(),
{
    if es.len() > 0 {
        lemma_key_position_bounds(es.drop_last(), k);
    }
}

proof fn lemma_key_position_prefix<T>(es: Seq<(String, T)>, k: Seq<char>, j: int)
    requires
        0 <= j <= es.len(),
        key_position(es.take(j), k) >= 0,
    ensures
        key_position(es, k) == key_position(es.take(j), k),
    decreases es.len() - j,
{
    if j < es.len() {
        assert(es.take(j + 1).drop_last() =~= es.take(j));
        lemma_key_position_prefix(es, k, j + 1);
    } else {
        assert(es.take(j) =~= es);
    }
}

proof fn lemma_key_position_same_keys<T>(a: Seq<(String, T)>, b: Seq<(String, T)>, k: Seq<char>)
    requires
        a.len() == b.len(),
        forall|j: int| 0 <= j < a.len() ==> (#[trigger] a[j]).0@ == b[j].0@,
    ensures
        key_position(a, k) == key_position(b, k),
    decreases a.len(),
{
    if a.len() > 0 {
        lemma_key_position_same_keys(a.drop_last(), b.drop_last(), k);
    }
}

proof fn lemma_key_position_push<T>(es: Seq<(String, T)>, e: (String, T), k: Seq<char>)
    ensures
        key_position(es.push(e), k) == if key_position(es, k) >= 0 {
            key_position(es, k)
        } else if e.0@ == k {
            es.len() as int
        } else {
            -1
        },
{
    assert(es.push(e).drop_last() =~= es);
}

proof fn lemma_unrelated_tails(p: Seq<Seq<char>>, q: Seq<Seq<char>>)
    requires
        p.len() >= 2,
        q.len() >= 2,
        p[0] == q[0],
        !related(p, q),
    ensures
        !related(p.drop_first(), q.drop_first()),
{
    if p.drop_first().is_prefix_of(q.drop_first()) {
        assert(p.is_prefix_of(q)) by {
            assert forall|j: int| 0 <= j < p.len() implies p[j] == q[j] by {
                if j > 0 {
                    assert(p[j] == p.drop_first()[j - 1]);
                }
            }
        }
    }
    if q.drop_first().is_prefix_of(p.drop_first()) {
        assert(q.is_prefix_of(p)) by {
            assert forall|j: int| 0 <= j < q.len() implies q[j] == p[j] by {
                if j > 0 {
                    assert(q[j] == q.drop_first()[j - 1]);
                }
            }
        }
    }
}

/// The position of the entry with key `k`, if any.
pub fn find_key<T>(es: &Vec<(String, T)>, k: &String) -> (r: Option<usize>)
    ensures
        match r {
            Some(i) => key_position(es@, k@) == i,
            None => key_position(es@, k@) == -1,
        },
{
    let kc = crate::text::chars_of(k.as_str());
    let mut i: usize = 0;
    while i < es.len()
        invariant
            kc@ == k@,
            i <= es@.len(),
            key_position(es@.take(i as int), k@) == -1,
        decreases es@.len() - i,
    {
        assert(es@.take(i + 1).drop_last() =~= es@.take(i as int));
        let ec = crate::text::chars_of(es[i].0.as_str());
        if same_chars(&ec, &kc) {
            proof {
                lemma_key_position_prefix(es@, k@, i + 1);
            }
            return Some(i);
        }
        i += 1;
    }
    assert(es@.take(es@.len() as int) =~= es@);
    None
}

/// Inserts `value` at the key path `path[from..]` below `target`, creating branches on the way
/// and replacing a leaf met on the way by a branch. Afterwards the path leads to `value`, and
/// every path that neither begins nor extends it leads where it led before.
pub fn insert_nested_path<T: DictLike>(
    target: &mut Vec<(String, T)>,
    path: &Vec<String>,
    from: usize,
    value: T,
)
    requires
        from < path@.len(),
        wf_tree(old(target)@),
        value.spec_branch() is None,
    ensures
        wf_tree(final(target)@),
        forall|q: Seq<Seq<char>>|
            q.len() < texts(path@).skip(from as int).len() && q.is_prefix_of(
                texts(path@).skip(from as int),
            ) ==> keys_after_insert(
                #[trigger] branch_at(old(target)@, q),
                branch_at(final(target)@, q),
                texts(path@).skip(from as int)[q.len() as int],
            ),
        get_path(final(target)@, texts(path@).skip(from as int)) == Some(value),
        forall|q: Seq<Seq<char>>|
            q.len() >= 1 && !related(q, texts(path@).skip(from as int)) ==> #[trigger] get_path(
                final(target)@,
                q,
            ) == get_path(old(target)@, q),
    decreases path@.len() - from,
{
    let ghost p = texts(path@).skip(from as int);
    let ghost before = target@;
    assert(p[0] == path@[from as int]@);
    let pos = find_key(target, &path[from]);
    proof {
        lemma_key_position_bounds(before, p[0]);
    }
    if from == path.len() - 1 {
        match pos {
            Some(i) => {
                let (key, _old_leaf) = target.remove(i);
                target.insert(i, (key, value));
                let ghost after = target@;
                assert(after =~= before.update(i as int, (key, value)));
                proof {
                    lemma_key_position_same_keys(after, before, p[0]);
                    assert forall|q: Seq<Seq<char>>|
                        q.len() >= 1 && !related(q, p) implies #[trigger] get_path(after, q)
                        == get_path(before, q) by {
                        lemma_key_position_same_keys(after, before, q[0]);
                        lemma_key_position_bounds(before, q[0]);
                        if q[0] == p[0] {
                            assert(p.is_prefix_of(q));
                        }
                    }
                    lemma_unique_update(before, i as int, (key, value));
                    lemma_wf_after_set(before, after, i as int, p);
                    assert(keys_of(after) =~= keys_of(before));
                    assert forall|q: Seq<Seq<char>>|
                        q.len() < p.len() && q.is_prefix_of(p) implies keys_after_insert(
                        #[trigger] branch_at(before, q),
                        branch_at(after, q),
                        p[q.len() as int],
                    ) by {}
                }
            },
            None => {
                let key = copy_string(&path[from]);
                target.push((key, value));
                proof {
                    lemma_key_position_push(before, (key, value), p[0]);
                    assert forall|q: Seq<Seq<char>>|
                        q.len() >= 1 && !related(q, p) implies #[trigger] get_path(target@, q)
                        == get_path(before, q) by {
                        lemma_key_position_push(before, (key, value), q[0]);
                        lemma_key_position_bounds(before, q[0]);
                        if q[0] == p[0] {
                            assert(p.is_prefix_of(q));
                        }
                    }
                    lemma_unique_push(before, (key, value));
                    lemma_wf_after_set(before, target@, before.len() as int, p);
                    assert(keys_of(target@) =~= keys_of(before).push(p[0]));
                    assert forall|q: Seq<Seq<char>>|
                        q.len() < p.len() && q.is_prefix_of(p) implies keys_after_insert(
                        #[trigger] branch_at(before, q),
                        branch_at(target@, q),
                        p[q.len() as int],
                    ) by {}
                }
            },
        }
    } else {
        let ghost tail = texts(path@).skip(from + 1);
        assert(tail =~= p.drop_first());
        match pos {
            Some(i) => {
                let (key, child) = target.remove(i);
                proof {
                    if child.spec_branch() is Some {
                        lemma_wf_child(before, i as int, p[0]);
                    }
                }
                let mut sub = match child.into_map() {
                    Some(m) => m,
                    None => Vec::new(),
                };
                proof {
                    if sub@.len() == 0 {
                        lemma_wf_empty(sub@);
                    }
                }
                let ghost sub_before = sub@;
                insert_nested_path(&mut sub, path, from + 1, value);
                let ghost sub_after = sub@;
                let branch = T::from_map(sub);
                let ghost entry = (key, branch);
                target.insert(i, (key, branch));
                let ghost after = target@;
                assert(after =~= before.update(i as int, entry));
                proof {
                    lemma_key_position_same_keys(after, before, p[0]);
                    assert forall|q: Seq<Seq<char>>|
                        q.len() >= 1 && !related(q, p) implies #[trigger] get_path(after, q)
                        == get_path(before, q) by {
                        lemma_key_position_same_keys(after, before, q[0]);
                        lemma_key_position_bounds(before, q[0]);
                        if q[0] == p[0] {
                            if q.len() == 1 {
                                assert(q.is_prefix_of(p));
                            } else {
                                lemma_unrelated_tails(q, p);
                                assert(get_path(sub_after, q.drop_first()) == get_path(
                                    sub_before,
                                    q.drop_first(),
                                ));
                            }
                        }
                    }
                    lemma_unique_update(before, i as int, entry);
                    lemma_wf_after_set(before, after, i as int, p);
                    assert(keys_of(after) =~= keys_of(before));
                    assert forall|q: Seq<Seq<char>>|
                        q.len() < p.len() && q.is_prefix_of(p) implies keys_after_insert(
                        #[trigger] branch_at(before, q),
                        branch_at(after, q),
                        p[q.len() as int],
                    ) by {
                        if q.len() >= 1 {
                            assert(q[0] == p[0]);
                            lemma_branch_at_cons(after, q);
                            lemma_branch_at_cons(before, q);
                            let q2 = q.drop_first();
                            assert(q2.is_prefix_of(tail)) by {
                                assert forall|j: int| 0 <= j < q2.len() implies q2[j] == tail[j] by {
                                    assert(q[j + 1] == p[j + 1]);
                                }
                            }
                            assert(p[q.len() as int] == tail[q2.len() as int]);
                            assert(keys_after_insert(
                                branch_at(sub_before, q2),
                                branch_at(sub_after, q2),
                                tail[q2.len() as int],
                            ));
                            if q2.len() >= 1 && sub_before.len() == 0 {
                                assert(key_position(sub_before, q2[0]) == -1);
                            }
                        }
                    }
                }
            },
            None => {
                let mut sub: Vec<(String, T)> = Vec::new();
                proof {
                    lemma_wf_empty(sub@);
                }
                let ghost sub_before = sub@;
                insert_nested_path(&mut sub, path, from + 1, value);
                let ghost sub_after = sub@;
                let key = copy_string(&path[from]);
                let branch = T::from_map(sub);
                let ghost entry = (key, branch);
                target.push((key, branch));
                proof {
                    lemma_key_position_push(before, entry, p[0]);
                    assert forall|q: Seq<Seq<char>>|
                        q.len() >= 1 && !related(q, p) implies #[trigger] get_path(target@, q)
                        == get_path(before, q) by {
                        lemma_key_position_push(before, entry, q[0]);
                        lemma_key_position_bounds(before, q[0]);
                        if q[0] == p[0] {
                            if q.len() == 1 {
                                assert(q.is_prefix_of(p));
                            } else {
                                lemma_unrelated_tails(q, p);
                                assert(get_path(sub_after, q.drop_first()) == get_path(
                                    sub_before,
                                    q.drop_first(),
                                ));
                                assert(key_position(sub_before, q.drop_first()[0]) == -1);
                            }
                        }
                    }
                    lemma_unique_push(before, entry);
                    lemma_wf_after_set(before, target@, before.len() as int, p);
                    assert(keys_of(target@) =~= keys_of(before).push(p[0]));
                    assert forall|q: Seq<Seq<char>>|
                        q.len() < p.len() && q.is_prefix_of(p) implies keys_after_insert(
                        #[trigger] branch_at(before, q),
                        branch_at(target@, q),
                        p[q.len() as int],
                    ) by {
                        if q.len() >= 1 {
                            assert(q[0] == p[0]);
                            lemma_branch_at_cons(target@, q);
                            lemma_branch_at_cons(before, q);
                            let q2 = q.drop_first();
                            assert(q2.is_prefix_of(tail)) by {
                                assert forall|j: int| 0 <= j < q2.len() implies q2[j] == tail[j] by {
                                    assert(q[j + 1] == p[j + 1]);
                                }
                            }
                            assert(p[q.len() as int] == tail[q2.len() as int]);
                            assert(keys_after_insert(
                                branch_at(sub_before, q2),
                                branch_at(sub_after, q2),
                                tail[q2.len() as int],
                            ));
                            if q2.len() >= 1 && sub_before.len() == 0 {
                                assert(key_position(sub_before, q2[0]) == -1);
                            }
                        }
                    }
                }
            },
        }
    }
}

/// Every entry of the tree lies on the key path of one of the first `n` statements.
pub open spec fn within_paths<T: DictLike>(es: Seq<(String, T)>, ps: Seq<PatternView>, n: int) -> bool {
    forall|q: Seq<Seq<char>>|
        q.len() >= 1 && (#[trigger] get_path(es, q)) is Some ==> exists|k: int|
            0 <= k < n && (#[trigger] ps[k]).key.len() >= 1 && q.is_prefix_of(ps[k].key)
}

/// No statement's non-empty key path begins another's, and none repeats.
pub open spec fn unrelated_keys(ps: Seq<PatternView>) -> bool {
    forall|i: int, j: int|
        0 <= i < ps.len() && 0 <= j < ps.len() && i != j && (#[trigger] ps[i].key).len() >= 1 && (
        #[trigger] ps[j].key).len() >= 1 ==> !related(ps[i].key, ps[j].key)
}

/// The text of a raw value.
pub open spec fn raw_text(v: SyntaxValueView) -> Seq<char> {
    match v {
        SyntaxValueView::Plain(s) => s,
        SyntaxValueView::Quoted(s) => s,
    }
}

/// The text of a raw value.
fn raw_value_text(v: &SyntaxValue) -> (r: String)
    ensures
        r@ == raw_text(v@),
{
    match v {
        SyntaxValue::Plain(s) => copy_string(s),
        SyntaxValue::Quoted(s) => copy_string(s),
    }
}

/// Builds value and schema trees from statements.
pub struct Parser;

impl Parser {
    /// Builds a tree from statements whose key paths are pairwise unrelated: every statement's
    /// path leads, from the root branch, to the leaf made from its raw value; every entry lies on
    /// some statement's path; and no branch repeats a key. The first raw value that names no
    /// leaf of this kind of tree is an error.
    pub fn convert_to<T: DictLike>(syntax: Syntax) -> (r: Result<T, ParseError>)
        requires
            unrelated_keys(syntax@),
        ensures
            match r {
                Ok(t) => t.spec_branch() is Some && wf_tree(t.spec_branch()->0) && within_paths(
                    t.spec_branch()->0,
                    syntax@,
                    syntax@.len() as int,
                ) && ordered(t.spec_branch()->0, syntax@) && forall|k: int|
                    0 <= k < syntax@.len() ==> T::spec_convertible(#[trigger] syntax@[k].value) && (
                    syntax@[k].key.len() >= 1 ==> get_path(t.spec_branch()->0, syntax@[k].key) is Some
                        && T::spec_leaf_of(
                        syntax@[k].value,
                        get_path(t.spec_branch()->0, syntax@[k].key)->0,
                    )),
                Err(e) => exists|k: int|
                    0 <= k < syntax@.len() && !T::spec_convertible(#[trigger] syntax@[k].value) && (
                    forall|j: int| 0 <= j < k ==> T::spec_convertible(#[trigger] syntax@[j].value))
                        && (e matches ParseError::Syntax(SyntaxValidationError::UnknownType { symbol })
                        && symbol@ == raw_text(syntax@[k].value)),
            },
    {
        let ghost orig = syntax@;
        let mut ps = syntax.patterns;
        let n = ps.len();
        let mut result: Vec<(String, T)> = Vec::new();
        let mut i: usize = 0;
        assert(pattern_views(ps@) =~= orig.skip(0));
        proof {
            lemma_wf_empty(result@);
            assert forall|q: Seq<Seq<char>>|
                (#[trigger] branch_at(result@, q)) is Some implies ordered_keys(
                orig,
                q,
                keys_of(branch_at(result@, q)->0),
            ) by {
                if q.len() >= 1 {
                    assert(key_position(result@, q[0]) == -1);
                }
            }
        }
        while i < n
            invariant
                n == orig.len(),
                orig == syntax@,
                i <= n,
                unrelated_keys(orig),
                pattern_views(ps@) == orig.skip(i as int),
                forall|k: int| 0 <= k < i ==> T::spec_convertible(#[trigger] orig[k].value),
                wf_tree(result@),
                within_paths(result@, orig, i as int),
                ordered(result@, orig),
                forall|k: int|
                    0 <= k < i && (#[trigger] orig[k]).key.len() >= 1 ==> get_path(result@, orig[k].key)
                        is Some && T::spec_leaf_of(orig[k].value, get_path(result@, orig[k].key)->0),
            decreases n - i,
        {
            assert(pattern_views(ps@).len() == ps@.len());
            assert(orig.skip(i as int).len() == n - i);
            let ghost rest = ps@;
            assert(pattern_views(rest)[0] == rest[0]@);
            assert(orig.skip(i as int)[0] == orig[i as int]);
            let p = ps.remove(0);
            assert(p@ == orig[i as int]);
            assert(pattern_views(ps@) =~= orig.skip(i + 1)) by {
                assert(ps@ =~= rest.subrange(1, rest.len() as int));
                assert forall|j: int| 0 <= j < ps@.len() implies pattern_views(ps@)[j] == orig.skip(
                    i + 1,
                )[j] by {
                    assert(ps@[j] == rest[j + 1]);
                    assert(pattern_views(rest)[j + 1] == rest[j + 1]@);
                    assert(orig.skip(i as int)[j + 1] == orig.skip(i + 1)[j]);
                }
            }
            let leaf = match T::from_syntax(&p.value) {
                None => {
                    let symbol = raw_value_text(&p.value);
                    let e = ParseError::Syntax(SyntaxValidationError::UnknownType { symbol });
                    assert(orig == syntax@);
                    assert(!T::spec_convertible(syntax@[i as int].value));
                    assert(forall|j: int| 0 <= j < i ==> T::spec_convertible(#[trigger] syntax@[j].value));
                    assert(symbol@ == raw_text(syntax@[i as int].value));
                    return Err(e);
                },
                Some(t) => t,
            };
            if p.key_parts.len() > 0 {
                let ghost before = result@;
                let ghost key = orig[i as int].key;
                assert(texts(p.key_parts@).skip(0) =~= key);
                let ghost leaf_view = leaf;
                insert_nested_path(&mut result, &p.key_parts, 0, leaf);
                assert forall|k: int|
                    0 <= k < i && (#[trigger] orig[k]).key.len() >= 1 implies get_path(
                    result@,
                    orig[k].key,
                ) == get_path(before, orig[k].key) by {
                    assert(!related(orig[k].key, key));
                }
                proof {
                    lemma_insert_keeps_order(before, result@, orig, i as int, leaf_view);
                }
                assert forall|q: Seq<Seq<char>>|
                    q.len() >= 1 && (#[trigger] get_path(result@, q)) is Some implies exists|k: int|
                        0 <= k < i + 1 && (#[trigger] orig[k]).key.len() >= 1 && q.is_prefix_of(
                            orig[k].key,
                        ) by {
                    if q.is_prefix_of(key) {
                        assert(orig[i as int].key.len() >= 1 && q.is_prefix_of(orig[i as int].key));
                    } else if key.is_prefix_of(q) {
                        if q.len() == key.len() {
                            assert(q =~= key);
                        } else {
                            lemma_get_path_past_leaf(result@, key, q);
                        }
                    } else {
                        assert(get_path(result@, q) == get_path(before, q));
                        let k = choose|k: int|
                            0 <= k < i && (#[trigger] orig[k]).key.len() >= 1 && q.is_prefix_of(
                                orig[k].key,
                            );
                        assert(0 <= k < i + 1 && orig[k].key.len() >= 1 && q.is_prefix_of(orig[k].key));
                    }
                }
            } else {
                assert forall|q: Seq<Seq<char>>|
                    q.len() >= 1 && (#[trigger] get_path(result@, q)) is Some implies exists|k: int|
                        0 <= k < i + 1 && (#[trigger] orig[k]).key.len() >= 1 && q.is_prefix_of(
                            orig[k].key,
                        ) by {
                    let k = choose|k: int|
                        0 <= k < i && (#[trigger] orig[k]).key.len() >= 1 && q.is_prefix_of(orig[k].key);
                    assert(0 <= k < i + 1 && orig[k].key.len() >= 1 && q.is_prefix_of(orig[k].key));
                }
            }
            i += 1;
        }
        Ok(T::from_map(result))
    }
}

} // verus!
