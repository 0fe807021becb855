use vstd::prelude::*;

use crate::error::Error;
use crate::error::ErrVal;
use crate::index_path::IndexPath;
use crate::indexer::Indexer;
use crate::indexer::path_ok;
use crate::indexer::seg_ok;
use crate::indexer::Seg;

verus! {

/// Spec-level form of a value tree. A map is a sequence of key/value
/// entries ordered strictly by key, which is the canonical order that
/// serialization follows.
pub enum Val {
    Mapping(Seq<(Seq<char>, Val)>),
    List(Seq<Val>),
    Str(Seq<char>),
    Empty,
}

/// A recursive value tree: a map ordered by key, an ordered list, a
/// decoded scalar string, or the absence of a value.
#[derive(Debug, PartialEq, Eq)]
pub enum Value {
    Mapping(Vec<(String, Value)>),
    List(Vec<Value>),
    String(String),
    Empty,
}

/// The model of a map's entry vector: each key viewed as characters,
/// each child viewed recursively.
pub open spec fn view_entries(m: Seq<(String, Value)>) -> Seq<(Seq<char>, Val)>
    decreases m,
{
    Seq::new(
        m.len(),
        |i: int|
            if 0 <= i < m.len() {
                (m[i].0@, m[i].1@)
            } else {
                (Seq::<char>::empty(), Val::Empty)
            },
    )
}

/// The model of a list's element vector.
pub open spec fn view_items(l: Seq<Value>) -> Seq<Val>
    decreases l,
{
    Seq::new(l.len(), |i: int| if 0 <= i < l.len() { l[i]@ } else { Val::Empty })
}

impl View for Value {
    type V = Val;

    open spec fn view(&self) -> Val
        decreases self,
    {
        match self {
            Value::Mapping(m) => Val::Mapping(view_entries(m@)),
            Value::List(l) => Val::List(view_items(l@)),
            Value::String(s) => Val::Str(s@),
            Value::Empty => Val::Empty,
        }
    }
}

/// Lexicographic order on strings, by character code point.
pub open spec fn str_lt(a: Seq<char>, b: Seq<char>) -> bool
    decreases a.len(),
{
    if b.len() == 0 {
        false
    } else if a.len() == 0 {
        true
    } else if a[0] != b[0] {
        (a[0] as int) < (b[0] as int)
    } else {
        str_lt(a.skip(1), b.skip(1))
    }
}

/// The entries of a map model, in order, have strictly increasing keys.
pub open spec fn keys_sorted(m: Seq<(Seq<char>, Val)>) -> bool {
    forall|i: int, j: int| 0 <= i < j < m.len() ==> str_lt(#[trigger] m[i].0, #[trigger] m[j].0)
}

/// Every map inside the tree is ordered strictly by key.
pub open spec fn wf(v: Val) -> bool
    decreases v,
{
    match v {
        Val::Mapping(m) => keys_sorted(m) && (forall|i: int|
            0 <= i < m.len() ==> wf(#[trigger] m[i].1)),
        Val::List(l) => forall|i: int| 0 <= i < l.len() ==> wf(#[trigger] l[i]),
        Val::Str(_) => true,
        Val::Empty => true,
    }
}

/// The segment that recursion dispatches on: the one at `pos`, or
/// nothing once the path is consumed.
pub open spec fn seg_at(path: Seq<Seg>, pos: int) -> Option<Seg> {
    if 0 <= pos < path.len() {
        Some(path[pos])
    } else {
        None
    }
}

/// Termination helper: an Empty node may be coerced once (to a map or a
/// list) and retried at the same path position.
pub open spec fn node_order(v: Val) -> int {
    if v is Empty {
        1
    } else {
        0
    }
}

/// Whether the map model holds an entry for `k`.
pub open spec fn map_has(m: Seq<(Seq<char>, Val)>, k: Seq<char>) -> bool {
    exists|i: int| 0 <= i < m.len() && #[trigger] m[i].0 == k
}

/// The value at `k`: the first entry whose key is `k`.
pub open spec fn map_get(m: Seq<(Seq<char>, Val)>, k: Seq<char>) -> Val
    decreases m.len(),
{
    if m.len() == 0 {
        Val::Empty
    } else if m[0].0 == k {
        m[0].1
    } else {
        map_get(m.skip(1), k)
    }
}

/// Inserts `(k, v)` keeping the entries ordered by key; an entry with
/// the same key is replaced.
pub open spec fn map_insert(m: Seq<(Seq<char>, Val)>, k: Seq<char>, v: Val) -> Seq<
    (Seq<char>, Val),
>
    decreases m.len(),
{
    if m.len() == 0 {
        seq![(k, v)]
    } else if str_lt(k, m[0].0) {
        seq![(k, v)] + m
    } else if k == m[0].0 {
        seq![(k, v)] + m.skip(1)
    } else {
        seq![m[0]] + map_insert(m.skip(1), k, v)
    }
}

/// Writes `v` at index `n`, growing the list with Empty placeholders
/// until that index is addressable.
pub open spec fn list_set(l: Seq<Val>, n: int, v: Val) -> Seq<Val> {
    if n < l.len() {
        l.update(n, v)
    } else {
        l + Seq::new((n - l.len()) as nat, |j: int| Val::Empty) + seq![v]
    }
}

/// Turns a list of bare flags into map entries, each flag a key bound
/// to Empty; fails with the first element that is not a string.
pub open spec fn flags_to_map(l: Seq<Val>, acc: Seq<(Seq<char>, Val)>) -> Result<
    Seq<(Seq<char>, Val)>,
    Val,
>
    decreases l.len(),
{
    if l.len() == 0 {
        Ok(acc)
    } else {
        match l[0] {
            Val::Str(s) => flags_to_map(l.skip(1), map_insert(acc, s, Val::Empty)),
            bad => Err(bad),
        }
    }
}

/// Element-by-element description of `list_set`.
pub proof fn lemma_list_set_index(l: Seq<Val>, n: int, v: Val)
    requires
        0 <= n,
    ensures
        list_set(l, n, v).len() == (if n < l.len() {
            l.len() as int
        } else {
            n + 1
        }),
        list_set(l, n, v)[n] == v,
        forall|j: int|
            0 <= j < list_set(l, n, v).len() && j != n ==> #[trigger] list_set(l, n, v)[j] == (
            if j < l.len() {
                l[j]
            } else {
                Val::Empty
            }),
{
    let r = list_set(l, n, v);
    if n < l.len() {
    } else {
        assert(r[n] == v);
        assert forall|j: int| 0 <= j < r.len() && j != n implies #[trigger] r[j] == (if j
            < l.len() {
            l[j]
        } else {
            Val::Empty
        }) by {
            if j < l.len() {
                assert(r[j] == l[j]);
            } else {
                assert(r[j] == Val::Empty);
            }
        }
    }
}

pub proof fn lemma_str_lt_irrefl(a: Seq<char>)
    ensures
        !str_lt(a, a),
    decreases a.len(),
{
    if a.len() > 0 {
        lemma_str_lt_irrefl(a.skip(1));
    }
}

/// Two strings are ordered one way, the other way, or equal.
pub proof fn lemma_str_lt_trichotomy(a: Seq<char>, b: Seq<char>)
    ensures
        str_lt(a, b) || str_lt(b, a) || a == b,
    decreases a.len(),
{
    if a.len() == 0 && b.len() == 0 {
        assert(a =~= b);
    } else if a.len() > 0 && b.len() > 0 && a[0] == b[0] {
        lemma_str_lt_trichotomy(a.skip(1), b.skip(1));
        if a.skip(1) == b.skip(1) {
            assert(a =~= seq![a[0]] + a.skip(1));
            assert(b =~= seq![b[0]] + b.skip(1));
        }
    } else if a.len() > 0 && b.len() > 0 {
        assert((a[0] as int) != (b[0] as int));
    }
}

pub proof fn lemma_str_lt_asymm(a: Seq<char>, b: Seq<char>)
    ensures
        !(str_lt(a, b) && str_lt(b, a)),
    decreases a.len(),
{
    if a.len() > 0 && b.len() > 0 && a[0] == b[0] {
        lemma_str_lt_asymm(a.skip(1), b.skip(1));
    }
}

pub proof fn lemma_str_lt_trans(a: Seq<char>, b: Seq<char>, c: Seq<char>)
    requires
        str_lt(a, b),
        str_lt(b, c),
    ensures
        str_lt(a, c),
    decreases a.len(),
{
    if a.len() > 0 && b.len() > 0 && c.len() > 0 && a[0] == b[0] && b[0] == c[0] {
        lemma_str_lt_trans(a.skip(1), b.skip(1), c.skip(1));
    }
}

/// Where the scan of a sorted map stops is where `map_insert` puts the
/// new entry: in place of an equal key, else just before the first
/// larger one; order and well-formed children are preserved.
pub proof fn lemma_map_insert_at(m: Seq<(Seq<char>, Val)>, k: Seq<char>, v: Val, p: int)
    requires
        keys_sorted(m),
        0 <= p <= m.len(),
        forall|j: int| 0 <= j < p ==> str_lt(#[trigger] m[j].0, k),
        p < m.len() ==> !str_lt(m[p].0, k),
    ensures
        p < m.len() && m[p].0 == k ==> map_insert(m, k, v) =~= m.update(p, (k, v)),
        !(p < m.len() && m[p].0 == k) ==> map_insert(m, k, v) =~= m.insert(p, (k, v)),
    decreases m.len(),
{
    if m.len() == 0 {
        assert(map_insert(m, k, v) =~= m.insert(0, (k, v)));
    } else if p == 0 {
        lemma_str_lt_trichotomy(k, m[0].0);
        if m[0].0 == k {
            assert(map_insert(m, k, v) == seq![(k, v)] + m.skip(1));
            assert(seq![(k, v)] + m.skip(1) =~= m.update(0, (k, v)));
        } else {
            assert(str_lt(k, m[0].0));
            assert(map_insert(m, k, v) == seq![(k, v)] + m);
            assert(seq![(k, v)] + m =~= m.insert(0, (k, v)));
        }
    } else {
        lemma_str_lt_irrefl(m[0].0);
        assert(!str_lt(k, m[0].0)) by {
            lemma_str_lt_asymm(k, m[0].0);
        }
        assert(m[0].0 != k);
        let ms = m.skip(1);
        assert(keys_sorted(ms)) by {
            assert(forall|i: int, j: int|
                0 <= i < j < ms.len() ==> str_lt(#[trigger] ms[i].0, #[trigger] ms[j].0)) by {
                assert(forall|i: int| 0 <= i < ms.len() ==> ms[i] == m[i + 1]);
            }
        }
        assert(forall|j: int| 0 <= j < p - 1 ==> str_lt(#[trigger] ms[j].0, k));
        lemma_map_insert_at(ms, k, v, p - 1);
        if p < m.len() && m[p].0 == k {
            assert(ms[p - 1].0 == k);
            assert(map_insert(ms, k, v) =~= ms.update(p - 1, (k, v)));
            assert(map_insert(m, k, v) == seq![m[0]] + map_insert(ms, k, v));
            assert(seq![m[0]] + ms.update(p - 1, (k, v)) =~= m.update(p, (k, v)));
        } else {
            assert(map_insert(ms, k, v) =~= ms.insert(p - 1, (k, v)));
            assert(map_insert(m, k, v) == seq![m[0]] + map_insert(ms, k, v));
            assert(seq![m[0]] + ms.insert(p - 1, (k, v)) =~= m.insert(p, (k, v)));
        }
    }
}

/// `map_insert` on a sorted map keeps it sorted, binds `k` to `v`, and
/// leaves every other binding as it was; every child of the result is
/// the new value or a child the map already had.
#[verifier::rlimit(100)]
#[verifier::spinoff_prover]
pub proof fn lemma_map_insert(m: Seq<(Seq<char>, Val)>, k: Seq<char>, v: Val)
    requires
        keys_sorted(m),
    ensures
        keys_sorted(map_insert(m, k, v)),
        forall|j: int|
            0 <= j < map_insert(m, k, v).len() ==> (#[trigger] map_insert(m, k, v)[j] == (k, v)
                || (exists|i: int| 0 <= i < m.len() && m[i] == map_insert(m, k, v)[j])),
        map_has(map_insert(m, k, v), k),
        map_get(map_insert(m, k, v), k) == v,
        forall|x: Seq<char>|
            x != k ==> (map_has(map_insert(m, k, v), x) == map_has(m, x) && #[trigger] map_get(
                map_insert(m, k, v),
                x,
            ) == map_get(m, x)),
    decreases m.len(),
{
    let r = map_insert(m, k, v);
    if m.len() == 0 {
        assert(r[0].0 == k);
        assert(forall|x: Seq<char>| x != k ==> !map_has(r, x) && !map_has(m, x));
        assert(map_get(r, k) == v);
        assert forall|x: Seq<char>| x != k implies #[trigger] map_get(r, x) == map_get(m, x) by {
            assert(r.skip(1) =~= Seq::<(Seq<char>, Val)>::empty());
            assert(map_get(r, x) == map_get(r.skip(1), x));
            assert(map_get(r.skip(1), x) == Val::Empty);
            assert(map_get(m, x) == Val::Empty);
        }
    } else if str_lt(k, m[0].0) {
        assert(r == seq![(k, v)] + m);
        assert(r[0] == (k, v));
        assert(forall|j: int| 1 <= j < r.len() ==> r[j] == m[j - 1]);
        assert(keys_sorted(r)) by {
            assert forall|i: int, j: int| 0 <= i < j < r.len() implies str_lt(
                #[trigger] r[i].0,
                #[trigger] r[j].0,
            ) by {
                if i == 0 {
                    if j == 1 {
                    } else {
                        lemma_str_lt_trans(k, m[0].0, m[j - 1].0);
                    }
                }
            }
        }
        assert(r[0].0 == k);
        assert(map_get(r, k) == v);
        assert forall|x: Seq<char>| x != k implies map_has(r, x) == map_has(m, x) && #[trigger] map_get(
            r,
            x,
        ) == map_get(m, x) by {
            assert(r.skip(1) =~= m);
            assert(map_get(r, x) == map_get(r.skip(1), x));
            if map_has(m, x) {
                let i = choose|i: int| 0 <= i < m.len() && #[trigger] m[i].0 == x;
                assert(r[i + 1].0 == x);
            }
            if map_has(r, x) {
                let i = choose|i: int| 0 <= i < r.len() && #[trigger] r[i].0 == x;
                assert(m[i - 1].0 == x);
            }
        }
    } else if k == m[0].0 {
        assert(r == seq![(k, v)] + m.skip(1));
        assert(forall|j: int| 1 <= j < r.len() ==> r[j] == m[j]);
        assert(keys_sorted(r)) by {
            assert forall|i: int, j: int| 0 <= i < j < r.len() implies str_lt(
                #[trigger] r[i].0,
                #[trigger] r[j].0,
            ) by {
                if i == 0 {
                    assert(str_lt(m[0].0, m[j].0));
                }
            }
        }
        assert(r[0].0 == k);
        assert(map_get(r, k) == v);
        assert forall|x: Seq<char>| x != k implies map_has(r, x) == map_has(m, x) && #[trigger] map_get(
            r,
            x,
        ) == map_get(m, x) by {
            assert(r.skip(1) =~= m.skip(1));
            assert(map_get(r, x) == map_get(r.skip(1), x));
            assert(map_get(m, x) == map_get(m.skip(1), x));
            if map_has(m, x) {
                let i = choose|i: int| 0 <= i < m.len() && #[trigger] m[i].0 == x;
                assert(i != 0);
                assert(r[i].0 == x);
            }
            if map_has(r, x) {
                let i = choose|i: int| 0 <= i < r.len() && #[trigger] r[i].0 == x;
                assert(m[i].0 == x);
            }
            assert(map_get(m, x) == map_get(m.skip(1), x));
        }
    } else {
        lemma_str_lt_trichotomy(k, m[0].0);
        assert(str_lt(m[0].0, k));
        let ms = m.skip(1);
        assert(keys_sorted(ms)) by {
            assert(forall|i: int| 0 <= i < ms.len() ==> ms[i] == m[i + 1]);
        }
        lemma_map_insert(ms, k, v);
        let rs = map_insert(ms, k, v);
        assert(r == seq![m[0]] + rs);
        assert(forall|j: int| 1 <= j < r.len() ==> r[j] == rs[j - 1]);
        assert(keys_sorted(r)) by {
            assert forall|i: int, j: int| 0 <= i < j < r.len() implies str_lt(
                #[trigger] r[i].0,
                #[trigger] r[j].0,
            ) by {
                if i == 0 {
                    let e = rs[j - 1];
                    if e == (k, v) {
                        assert(str_lt(m[0].0, k));
                    } else {
                        let ii = choose|ii: int| 0 <= ii < ms.len() && ms[ii] == e;
                        assert(ms[ii] == m[ii + 1]);
                        assert(str_lt(m[0].0, m[ii + 1].0));
                    }
                }
            }
        }
        assert forall|j: int|
            0 <= j < r.len() implies (#[trigger] r[j] == (k, v) || (exists|i: int|
            0 <= i < m.len() && m[i] == r[j])) by {
            if j == 0 {
                assert(m[0] == r[0]);
            } else {
                let e = rs[j - 1];
                if e != (k, v) {
                    let ii = choose|ii: int| 0 <= ii < ms.len() && ms[ii] == e;
                    assert(m[ii + 1] == e);
                }
            }
        }
        assert(map_has(r, k)) by {
            let i = choose|i: int| 0 <= i < rs.len() && #[trigger] rs[i].0 == k;
            assert(r[i + 1].0 == k);
        }
        assert(map_get(r, k) == v) by {
            assert(r[0].0 != k);
            assert(r.skip(1) =~= rs);
        }
        assert forall|x: Seq<char>| x != k implies map_has(r, x) == map_has(m, x) && #[trigger] map_get(
            r,
            x,
        ) == map_get(m, x) by {
            assert(r.skip(1) =~= rs);
            assert(map_has(rs, x) == map_has(ms, x));
            if map_has(ms, x) {
                let i = choose|i: int| 0 <= i < ms.len() && #[trigger] ms[i].0 == x;
                assert(m[i + 1].0 == x);
            }
            if map_has(m, x) && m[0].0 != x {
                let i = choose|i: int| 0 <= i < m.len() && #[trigger] m[i].0 == x;
                assert(ms[i - 1].0 == x);
            }
            if map_has(rs, x) {
                let i = choose|i: int| 0 <= i < rs.len() && #[trigger] rs[i].0 == x;
                assert(r[i + 1].0 == x);
            }
            if map_has(r, x) && r[0].0 != x {
                let i = choose|i: int| 0 <= i < r.len() && #[trigger] r[i].0 == x;
                assert(rs[i - 1].0 == x);
            }
            if x == m[0].0 {
                assert(map_get(r, x) == m[0].1);
                assert(map_get(m, x) == m[0].1);
                assert(map_has(r, x) && map_has(m, x));
            } else {
                assert(map_get(r, x) == map_get(rs, x));
                assert(map_get(m, x) == map_get(ms, x));
            }
        }
    }
}

/// Equal prefixes do not affect the lexicographic order.
pub proof fn lemma_str_lt_skip(a: Seq<char>, b: Seq<char>, i: int)
    requires
        0 <= i <= a.len(),
        i <= b.len(),
        forall|j: int| 0 <= j < i ==> a[j] == b[j],
    ensures
        str_lt(a, b) == str_lt(a.skip(i), b.skip(i)),
    decreases i,
{
    if i > 0 {
        assert(str_lt(a, b) == str_lt(a.skip(1), b.skip(1)));
        assert(forall|j: int| 0 <= j < i - 1 ==> a.skip(1)[j] == b.skip(1)[j]);
        lemma_str_lt_skip(a.skip(1), b.skip(1), i - 1);
        assert(a.skip(1).skip(i - 1) =~= a.skip(i));
        assert(b.skip(1).skip(i - 1) =~= b.skip(i));
    } else {
        assert(a.skip(0) =~= a);
        assert(b.skip(0) =~= b);
    }
}

/// Three-way lexicographic comparison: -1, 0, 1 as a < b, a == b, b < a.
pub(crate) fn str_compare(a: &str, b: &str) -> (r: i8)
    ensures
        (r == -1) == str_lt(a@, b@),
        (r == 0) == (a@ == b@),
        (r == 1) == str_lt(b@, a@),
{
    let alen = a.unicode_len();
    let blen = b.unicode_len();
    let mut i: usize = 0;
    while i < alen && i < blen
        invariant
            i <= alen,
            i <= blen,
            alen == a@.len(),
            blen == b@.len(),
            forall|j: int| 0 <= j < i ==> a@[j] == b@[j],
        decreases alen - i,
    {
        let ca = a.get_char(i);
        let cb = b.get_char(i);
        if ca != cb {
            proof {
                lemma_str_lt_skip(a@, b@, i as int);
                lemma_str_lt_skip(b@, a@, i as int);
                assert(a@.skip(i as int)[0] == a@[i as int]);
                assert(b@.skip(i as int)[0] == b@[i as int]);
                assert(a@ != b@) by {
                    assert(a@[i as int] != b@[i as int]);
                }
            }
            if (ca as u32) < (cb as u32) {
                return -1;
            } else {
                return 1;
            }
        }
        i += 1;
    }
    proof {
        lemma_str_lt_skip(a@, b@, i as int);
        lemma_str_lt_skip(b@, a@, i as int);
    }
    if alen < blen {
        -1
    } else if alen == blen {
        proof {
            assert(a@ =~= b@);
        }
        0
    } else {
        1
    }
}

proof fn lemma_map_get_at(m: Seq<(Seq<char>, Val)>, k: Seq<char>, p: int)
    requires
        0 <= p < m.len(),
        m[p].0 == k,
        forall|j: int| 0 <= j < p ==> #[trigger] m[j].0 != k,
    ensures
        map_get(m, k) == m[p].1,
    decreases p,
{
    if p > 0 {
        assert(forall|j: int| 0 <= j < m.skip(1).len() ==> m.skip(1)[j] == m[j + 1]);
        lemma_map_get_at(m.skip(1), k, p - 1);
    }
}

/// Where a front-to-back scan of a sorted map stops tells whether the
/// key is present, and where.
pub proof fn lemma_map_find_at(m: Seq<(Seq<char>, Val)>, k: Seq<char>, p: int)
    requires
        keys_sorted(m),
        0 <= p <= m.len(),
        forall|j: int| 0 <= j < p ==> str_lt(#[trigger] m[j].0, k),
        p < m.len() ==> !str_lt(m[p].0, k),
    ensures
        map_has(m, k) == (p < m.len() && m[p].0 == k),
        p < m.len() && m[p].0 == k ==> map_get(m, k) == m[p].1,
{
    if p < m.len() && m[p].0 == k {
        assert(map_has(m, k));
        assert forall|j: int| 0 <= j < p implies #[trigger] m[j].0 != k by {
            lemma_str_lt_irrefl(k);
        }
        lemma_map_get_at(m, k, p);
    } else {
        assert forall|i: int| 0 <= i < m.len() implies #[trigger] m[i].0 != k by {
            lemma_str_lt_irrefl(k);
            if i < p {
            } else {
                assert(p < m.len());
                lemma_str_lt_trichotomy(m[p].0, k);
                assert(str_lt(k, m[p].0));
                if i > p {
                    lemma_str_lt_trans(k, m[p].0, m[i].0);
                } else {
                }
            }
        }
        assert(!map_has(m, k));
    }
}

/// The value that `map_get` finds is Empty or one of the map's children.
pub proof fn lemma_map_get_child(m: Seq<(Seq<char>, Val)>, k: Seq<char>)
    ensures
        map_get(m, k) == Val::Empty || exists|i: int|
            0 <= i < m.len() && #[trigger] m[i].1 == map_get(m, k),
    decreases m.len(),
{
    if m.len() > 0 && m[0].0 != k {
        lemma_map_get_child(m.skip(1), k);
        if map_get(m.skip(1), k) != Val::Empty {
            let i = choose|i: int|
                0 <= i < m.skip(1).len() && #[trigger] m.skip(1)[i].1 == map_get(m.skip(1), k);
            assert(m[i + 1].1 == map_get(m, k));
        }
    }
}

/// Turning a list of flags into a map yields sorted entries, every one
/// of them bound to Empty.
pub proof fn lemma_flags_to_map_wf(l: Seq<Val>, acc: Seq<(Seq<char>, Val)>)
    requires
        keys_sorted(acc),
        forall|i: int| 0 <= i < acc.len() ==> #[trigger] acc[i].1 == Val::Empty,
    ensures
        flags_to_map(l, acc) matches Ok(m2) ==> (keys_sorted(m2) && forall|i: int|
            0 <= i < m2.len() ==> #[trigger] m2[i].1 == Val::Empty),
    decreases l.len(),
{
    if l.len() > 0 {
        match l[0] {
            Val::Str(s) => {
                lemma_map_insert(acc, s, Val::Empty);
                let acc2 = map_insert(acc, s, Val::Empty);
                assert forall|i: int| 0 <= i < acc2.len() implies #[trigger] acc2[i].1
                    == Val::Empty by {
                    if acc2[i] != (s, Val::Empty) {
                        let j = choose|j: int| 0 <= j < acc.len() && acc[j] == acc2[i];
                        assert(acc[j].1 == Val::Empty);
                    }
                }
                lemma_flags_to_map_wf(l.skip(1), acc2);
            },
            _ => {},
        }
    }
}

/// The merge rules of append, dispatched on the current node, the
/// segment at `pos`, and the incoming value, in order; the earliest
/// matching rule applies.
pub open spec fn spec_append(node: Val, path: Seq<Seg>, pos: int, value: Val) -> Result<
    Val,
    ErrVal,
>
    decreases path.len() - pos, node_order(node),
{
    match (node, seg_at(path, pos), value) {
        (Val::Mapping(m), Some(Seg::Key(k)), v) => {
            let child = if map_has(m, k) {
                map_get(m, k)
            } else {
                Val::Empty
            };
            match spec_append(child, path, pos + 1, v) {
                Ok(c2) => Ok(Val::Mapping(map_insert(m, k, c2))),
                Err(e) => Err(e),
            }
        },
        (Val::Empty, None, v) => Ok(v),
        (Val::Empty, Some(Seg::Append), v) => Ok(Val::List(seq![v])),
        (Val::Empty, Some(Seg::Key(k)), Val::Empty) => Ok(Val::Str(k)),
        (Val::Empty, Some(Seg::Key(k)), v) => spec_append(
            Val::Mapping(Seq::empty()),
            path,
            pos,
            v,
        ),
        (Val::Str(s), None, v) => Ok(Val::List(seq![Val::Str(s), v])),
        (Val::Str(s), Some(Seg::Append), v) => Ok(Val::List(seq![Val::Str(s), v])),
        (Val::Str(s1), Some(Seg::Key(s2)), Val::Empty) => Ok(
            Val::List(seq![Val::Str(s1), Val::Str(s2)]),
        ),
        (Val::List(l), Some(Seg::Append), v) => Ok(Val::List(l.push(v))),
        (Val::List(l), None, v) => Ok(Val::List(l.push(v))),
        (Val::List(l), Some(Seg::Num(n)), v) => Ok(Val::List(list_set(l, n, v))),
        (Val::List(l), Some(Seg::Key(s)), Val::Empty) => Ok(Val::List(l.push(Val::Str(s)))),
        (Val::List(l), Some(Seg::Key(s)), v) => match flags_to_map(l, Seq::empty()) {
            Ok(m) => Ok(Val::Mapping(map_insert(m, s, v))),
            Err(bad) => Err(ErrVal::CouldNotConvertToMap(bad)),
        },
        (n, _, Val::Empty) => Ok(n),
        (Val::Empty, Some(Seg::Num(nn)), v) => spec_append(Val::List(Seq::empty()), path, pos, v),
        (n, ix, v) => Err(ErrVal::CouldNotAppend(n, ix, v)),
    }
}

/// Appending a well-formed value to a well-formed tree keeps every map
/// in the tree strictly ordered by key: serialization order never
/// depends on the order in which appends arrived.
#[verifier::rlimit(100)]
#[verifier::spinoff_prover]
pub proof fn lemma_append_preserves_wf(node: Val, path: Seq<Seg>, pos: int, value: Val)
    requires
        wf(node),
        wf(value),
        path_ok(path),
    ensures
        spec_append(node, path, pos, value) matches Ok(v2) ==> wf(v2),
    decreases path.len() - pos, node_order(node),
{
    match (node, seg_at(path, pos), value) {
        (Val::Mapping(m), Some(Seg::Key(k)), v) => {
            let child = if map_has(m, k) {
                map_get(m, k)
            } else {
                Val::Empty
            };
            assert(wf(child)) by {
                lemma_map_get_child(m, k);
            }
            lemma_append_preserves_wf(child, path, pos + 1, v);
            match spec_append(child, path, pos + 1, v) {
                Ok(c2) => {
                    lemma_map_insert(m, k, c2);
                    let m2 = map_insert(m, k, c2);
                    assert forall|i: int| 0 <= i < m2.len() implies wf(#[trigger] m2[i].1) by {
                        if m2[i] != (k, c2) {
                            let j = choose|j: int| 0 <= j < m.len() && m[j] == m2[i];
                            assert(wf(m[j].1));
                        }
                    }
                },
                Err(_) => {},
            }
        },
        (Val::Empty, None, v) => {},
        (Val::Empty, Some(Seg::Append), v) => {
            let l2 = seq![v];
            assert forall|i: int| 0 <= i < l2.len() implies wf(#[trigger] l2[i]) by {
                assert(l2[i] == v);
            }
            assert(wf(Val::List(l2)));
        },
        (Val::Empty, Some(Seg::Key(k)), Val::Empty) => {},
        (Val::Empty, Some(Seg::Key(k)), v) => {
            assert(keys_sorted(Seq::<(Seq<char>, Val)>::empty()));
            lemma_append_preserves_wf(Val::Mapping(Seq::empty()), path, pos, v);
        },
        (Val::Str(s), None, v) => {
            let l2 = seq![Val::Str(s), v];
            assert forall|i: int| 0 <= i < l2.len() implies wf(#[trigger] l2[i]) by {
                if i == 0 {
                    assert(l2[i] == Val::Str(s));
                } else {
                    assert(l2[i] == v);
                }
            }
            assert(wf(Val::List(l2)));
        },
        (Val::Str(s), Some(Seg::Append), v) => {
            let l2 = seq![Val::Str(s), v];
            assert forall|i: int| 0 <= i < l2.len() implies wf(#[trigger] l2[i]) by {
                if i == 0 {
                    assert(l2[i] == Val::Str(s));
                } else {
                    assert(l2[i] == v);
                }
            }
            assert(wf(Val::List(l2)));
        },
        (Val::Str(s1), Some(Seg::Key(s2)), Val::Empty) => {
            let l2 = seq![Val::Str(s1), Val::Str(s2)];
            assert forall|i: int| 0 <= i < l2.len() implies wf(#[trigger] l2[i]) by {
                if i == 0 {
                    assert(l2[i] == Val::Str(s1));
                } else {
                    assert(l2[i] == Val::Str(s2));
                }
            }
            assert(wf(Val::List(l2)));
        },
        (Val::List(l), Some(Seg::Append), v) => {
            assert forall|i: int| 0 <= i < l.push(v).len() implies wf(#[trigger] l.push(v)[i]) by {
                if i < l.len() {
                    assert(l.push(v)[i] == l[i]);
                } else {
                    assert(l.push(v)[i] == v);
                }
            }
            assert(wf(Val::List(l.push(v))));
        },
        (Val::List(l), None, v) => {
            assert forall|i: int| 0 <= i < l.push(v).len() implies wf(#[trigger] l.push(v)[i]) by {
                if i < l.len() {
                    assert(l.push(v)[i] == l[i]);
                } else {
                    assert(l.push(v)[i] == v);
                }
            }
            assert(wf(Val::List(l.push(v))));
        },
        (Val::List(l), Some(Seg::Num(n)), v) => {
            assert(seg_ok(path[pos]));
            assert(n >= 0);
            let l2 = list_set(l, n, v);
            assert forall|i: int| 0 <= i < l2.len() implies wf(#[trigger] l2[i]) by {
                if n < l.len() {
                    if i == n {
                        assert(l2[i] == v);
                    } else {
                        assert(l2[i] == l[i]);
                    }
                } else {
                    if i < l.len() {
                        assert(l2[i] == l[i]);
                    } else if i < n {
                        assert(l2[i] == Val::Empty);
                    } else {
                        assert(l2[i] == v);
                    }
                }
            }
            assert(wf(Val::List(l2)));
        },
        (Val::List(l), Some(Seg::Key(s)), Val::Empty) => {
            let l2 = l.push(Val::Str(s));
            assert forall|i: int| 0 <= i < l2.len() implies wf(#[trigger] l2[i]) by {
                if i < l.len() {
                    assert(l2[i] == l[i]);
                } else {
                    assert(l2[i] == Val::Str(s));
                }
            }
            assert(wf(Val::List(l2)));
        },
        (Val::List(l), Some(Seg::Key(s)), v) => {
            lemma_flags_to_map_wf(l, Seq::empty());
            match flags_to_map(l, Seq::empty()) {
                Ok(m2) => {
                    lemma_map_insert(m2, s, v);
                    let m3 = map_insert(m2, s, v);
                    assert forall|i: int| 0 <= i < m3.len() implies wf(#[trigger] m3[i].1) by {
                        if m3[i] != (s, v) {
                            let j = choose|j: int| 0 <= j < m2.len() && m2[j] == m3[i];
                            assert(m2[j].1 == Val::Empty);
                        }
                    }
                },
                Err(_) => {},
            }
        },
        (n, _, Val::Empty) => {},
        (Val::Empty, Some(Seg::Num(nn)), v) => {
            lemma_append_preserves_wf(Val::List(Seq::empty()), path, pos, v);
        },
        (n, ix, v) => {},
    }
}

impl Value {
    /// An empty map.
    pub fn new_map() -> (r: Self)
        ensures
            r@ == Val::Mapping(Seq::<(Seq<char>, Val)>::empty()),
    {
        let v: Vec<(String, Value)> = Vec::new();
        proof {
            assert(view_entries(v@) =~= Seq::<(Seq<char>, Val)>::empty());
        }
        Self::Mapping(v)
    }

    /// An empty list.
    pub fn new_list() -> (r: Self)
        ensures
            r@ == Val::List(Seq::<Val>::empty()),
    {
        let v: Vec<Value> = Vec::new();
        proof {
            assert(view_items(v@) =~= Seq::<Val>::empty());
        }
        Self::List(v)
    }

    pub fn is_map(&self) -> (r: bool)
        ensures
            r == (self@ is Mapping),
    {
        matches!(self, Self::Mapping(_))
    }

    pub fn is_string(&self) -> (r: bool)
        ensures
            r == (self@ is Str),
    {
        matches!(self, Self::String(_))
    }

    pub fn is_list(&self) -> (r: bool)
        ensures
            r == (self@ is List),
    {
        matches!(self, Self::List(_))
    }
}

impl Default for Value {
    /// A value starts untyped.
    fn default() -> (r: Self)
        ensures
            r@ == Val::Empty,
    {
        Value::Empty
    }
}

impl Clone for Value {
    /// A deep copy with the same model.
    #[verifier::loop_isolation(false)]
    fn clone(&self) -> (res: Self)
        ensures
            res@ == self@,
        decreases self,
    {
        match self {
            Value::Mapping(m) => {
                let mut out: Vec<(String, Value)> = Vec::new();
                let mut i: usize = 0;
                while i < m.len()
                    invariant
                        i <= m@.len(),
                        out@.len() == i as int,
                        forall|j: int|
                            0 <= j < i ==> (#[trigger] out@[j]).0@ == m@[j].0@ && out@[j].1@
                                == m@[j].1@,
                    decreases m@.len() - i,
                {
                    let e = &m[i];
                    proof {
                        assert(*self == Value::Mapping(*m));
                        assert(decreases_to!(Value::Mapping(*m) => *m));
                        assert(decreases_to!(*m => m@));
                        assert(decreases_to!(m@ => m@[i as int]));
                        assert(decreases_to!(m@[i as int] => m@[i as int].1));
                        assert(decreases_to!(*self => e.1));
                    }
                    let k2 = e.0.clone();
                    let v2 = e.1.clone();
                    out.push((k2, v2));
                    i += 1;
                }
                proof {
                    assert(view_entries(out@) =~= view_entries(m@));
                }
                Value::Mapping(out)
            },
            Value::List(l) => {
                let mut out: Vec<Value> = Vec::new();
                let mut i: usize = 0;
                while i < l.len()
                    invariant
                        i <= l@.len(),
                        out@.len() == i as int,
                        forall|j: int| 0 <= j < i ==> (#[trigger] out@[j])@ == l@[j]@,
                    decreases l@.len() - i,
                {
                    proof {
                        assert(*self == Value::List(*l));
                        assert(decreases_to!(Value::List(*l) => *l));
                        assert(decreases_to!(*l => l@));
                        assert(decreases_to!(l@ => l@[i as int]));
                        assert(decreases_to!(*self => l@[i as int]));
                    }
                    let v2 = l[i].clone();
                    out.push(v2);
                    i += 1;
                }
                proof {
                    assert(view_items(out@) =~= view_items(l@));
                }
                Value::List(out)
            },
            Value::String(s) => Value::String(s.clone()),
            Value::Empty => Value::Empty,
        }
    }
}

/// The position where a sorted entry vector either holds `k@` or would
/// take it: the first entry whose key is not below `k@`.
fn find_slot(m: &Vec<(String, Value)>, k: &str) -> (p: usize)
    requires
        keys_sorted(view_entries(m@)),
    ensures
        p <= m@.len(),
        forall|j: int| 0 <= j < p ==> str_lt(#[trigger] view_entries(m@)[j].0, k@),
        p < m@.len() ==> !str_lt(view_entries(m@)[p as int].0, k@),
{
    let mut p: usize = 0;
    loop
        invariant
            p <= m@.len(),
            keys_sorted(view_entries(m@)),
            forall|j: int| 0 <= j < p ==> str_lt(#[trigger] view_entries(m@)[j].0, k@),
        ensures
            p <= m@.len(),
            forall|j: int| 0 <= j < p ==> str_lt(#[trigger] view_entries(m@)[j].0, k@),
            p < m@.len() ==> !str_lt(view_entries(m@)[p as int].0, k@),
        decreases m@.len() - p,
    {
        if p >= m.len() {
            break ;
        }
        let c = str_compare(m[p].0.as_str(), k);
        if c != -1 {
            break ;
        }
        p = p + 1;
    }
    p
}

/// Inserts `(k, v)` into a sorted entry vector, as `map_insert` says.
fn map_insert_entry(m: &mut Vec<(String, Value)>, k: String, v: Value)
    requires
        keys_sorted(view_entries(old(m)@)),
    ensures
        view_entries(final(m)@) == map_insert(view_entries(old(m)@), k@, v@),
{
    let ghost m0 = view_entries(m@);
    let p = find_slot(m, k.as_str());
    proof {
        lemma_map_insert_at(m0, k@, v@, p as int);
    }
    if p < m.len() && str_compare(m[p].0.as_str(), k.as_str()) == 0 {
        m[p] = (k, v);
        proof {
            assert(view_entries(m@) =~= m0.update(p as int, (k@, v@)));
        }
    } else {
        m.insert(p, (k, v));
        proof {
            assert(view_entries(m@) =~= m0.insert(p as int, (k@, v@)));
        }
    }
}

/// The read path: descends maps by key and lists by in-range index; an
/// exhausted path yields the current node; any other pairing is
/// absence, never an error.
pub open spec fn spec_get(node: Val, path: Seq<Seg>, pos: int) -> Option<Val>
    decreases path.len() - pos,
{
    match (node, seg_at(path, pos)) {
        (Val::Mapping(m), Some(Seg::Key(k))) => if map_has(m, k) {
            spec_get(map_get(m, k), path, pos + 1)
        } else {
            None
        },
        (Val::List(l), Some(Seg::Num(n))) => if 0 <= n < l.len() {
            spec_get(l[n], path, pos + 1)
        } else {
            None
        },
        (n, None) => Some(n),
        _ => None,
    }
}

/// Whether a value holds nothing: an Empty node, an empty string, an
/// empty map, or a list whose elements all hold nothing.
pub open spec fn spec_is_empty(v: Val) -> bool
    decreases v,
{
    match v {
        Val::Mapping(m) => m.len() == 0,
        Val::List(l) => l.len() == 0 || (forall|i: int|
            0 <= i < l.len() ==> spec_is_empty(#[trigger] l[i])),
        Val::Str(s) => s.len() == 0,
        Val::Empty => true,
    }
}

/// The number of entries a map holds, elements a list holds, or bytes
/// a string holds in its UTF-8 form.
pub open spec fn spec_len(v: Val) -> int {
    match v {
        Val::Mapping(m) => m.len() as int,
        Val::List(l) => l.len() as int,
        Val::Str(s) => (vstd::utf8::encode_utf8(s).len() as usize) as int,
        Val::Empty => 0,
    }
}

/// Collects a list of bare flags into sorted map entries, as
/// `flags_to_map` says; fails with a copy of the first element that is
/// not a string, leaving the list untouched.
#[verifier::loop_isolation(false)]
fn flags_entries(l: &Vec<Value>) -> (r: Result<Vec<(String, Value)>, Value>)
    ensures
        match flags_to_map(view_items(l@), Seq::<(Seq<char>, Val)>::empty()) {
            Ok(m2) => r matches Ok(mm) && view_entries(mm@) == m2,
            Err(b2) => r matches Err(b) && b@ == b2,
        },
{
    let ghost items = view_items(l@);
    let mut mm: Vec<(String, Value)> = Vec::new();
    proof {
        assert(view_entries(mm@) =~= Seq::<(Seq<char>, Val)>::empty());
        assert(items.skip(0) =~= items);
    }
    let mut i: usize = 0;
    while i < l.len()
        invariant
            i <= l@.len(),
            keys_sorted(view_entries(mm@)),
            flags_to_map(items.skip(i as int), view_entries(mm@)) == flags_to_map(
                items,
                Seq::<(Seq<char>, Val)>::empty(),
            ),
        decreases l@.len() - i,
    {
        let ghost mm0 = view_entries(mm@);
        match &l[i] {
            Value::String(s) => {
                proof {
                    assert(items.skip(i as int)[0] == items[i as int]);
                    assert(items[i as int] == Val::Str(s@));
                    assert(items.skip(i as int).skip(1) =~= items.skip(i as int + 1));
                    lemma_map_insert(mm0, s@, Val::Empty);
                }
                map_insert_entry(&mut mm, s.clone(), Value::Empty);
            },
            other => {
                proof {
                    assert(items.skip(i as int)[0] == items[i as int]);
                }
                return Err(other.clone());
            },
        }
        i += 1;
    }
    proof {
        assert(items.skip(i as int) =~= Seq::<Val>::empty());
    }
    Ok(mm)
}

impl Value {
    /// One step of the merge. The node is consumed; on success the
    /// merged replacement comes back, on failure the node comes back
    /// unchanged, beside an error that carries copies of the
    /// conflicting parts.
    #[verifier::loop_isolation(false)]
    fn inner_append(self, path: &IndexPath, pos: usize, value: Value) -> (r: Result<
        Value,
        (Value, Error),
    >)
        requires
            pos <= path@.len(),
            wf(self@),
        ensures
            match spec_append(self@, path@, pos as int, value@) {
                Ok(v2) => r matches Ok(out) && out@ == v2,
                Err(e2) => r matches Err(p) && p.0@ == self@ && p.1@ == e2,
            },
        decreases path@.len() - pos, node_order(self@),
    {
        let ghost vv = value@;
        match self {
            Value::Mapping(mut m) => {
                let ghost m0 = view_entries(m@);
                if pos < path.len() {
                    let ix = path.seg(pos);
                    match ix {
                        Indexer::String(k) => {
                            let p = find_slot(&m, k.as_str());
                            proof {
                                lemma_map_find_at(m0, k@, p as int);
                            }
                            let exists_here = p < m.len() && str_compare(
                                m[p].0.as_str(),
                                k.as_str(),
                            ) == 0;
                            if exists_here {
                                let mut child = Value::Empty;
                                core::mem::swap(&mut m[p].1, &mut child);
                                proof {
                                    assert(child@ == m0[p as int].1);
                                    assert(wf(self@) ==> wf(m0[p as int].1));
                                }
                                match child.inner_append(path, pos + 1, value) {
                                    Ok(c2) => {
                                        proof {
                                            lemma_map_insert_at(m0, k@, c2@, p as int);
                                        }
                                        let ghost c2v = c2@;
                                        m[p].1 = c2;
                                        proof {
                                            assert(view_entries(m@) =~= m0.update(
                                                p as int,
                                                (k@, c2v),
                                            ));
                                        }
                                        Ok(Value::Mapping(m))
                                    },
                                    Err((orig, e)) => {
                                        m[p].1 = orig;
                                        proof {
                                            assert(view_entries(m@) =~= m0);
                                        }
                                        Err((Value::Mapping(m), e))
                                    },
                                }
                            } else {
                                match Value::Empty.inner_append(path, pos + 1, value) {
                                    Ok(c2) => {
                                        proof {
                                            lemma_map_insert_at(m0, k@, c2@, p as int);
                                        }
                                        let ghost c2v = c2@;
                                        m.insert(p, (k.clone(), c2));
                                        proof {
                                            assert(view_entries(m@) =~= m0.insert(
                                                p as int,
                                                (k@, c2v),
                                            ));
                                        }
                                        Ok(Value::Mapping(m))
                                    },
                                    Err((_, e)) => Err((Value::Mapping(m), e)),
                                }
                            }
                        },
                        _ => {
                            if matches!(value, Value::Empty) {
                                Ok(Value::Mapping(m))
                            } else {
                                let ix2 = ix.clone();
                                let node = Value::Mapping(m);
                                let dup = node.clone();
                                Err((node, Error::CouldNotAppend(dup, Some(ix2), value)))
                            }
                        },
                    }
                } else {
                    if matches!(value, Value::Empty) {
                        Ok(Value::Mapping(m))
                    } else {
                        let node = Value::Mapping(m);
                        let dup = node.clone();
                        Err((node, Error::CouldNotAppend(dup, None, value)))
                    }
                }
            },
            Value::List(mut l) => {
                let ghost l0 = view_items(l@);
                if pos < path.len() {
                    let ix = path.seg(pos);
                    match ix {
                        Indexer::Empty => {
                            l.push(value);
                            proof {
                                assert(view_items(l@) =~= l0.push(vv));
                            }
                            Ok(Value::List(l))
                        },
                        Indexer::Number(n) => {
                            let n = *n;
                            proof {
                                lemma_list_set_index(l0, n as int, vv);
                            }
                            if n < l.len() {
                                let ghost lb = l@;
                                l[n] = value;
                                proof {
                                    assert forall|j: int|
                                        0 <= j < view_items(l@).len() implies view_items(l@)[j]
                                        == list_set(l0, n as int, vv)[j] by {
                                        assert(view_items(l@)[j] == l@[j]@);
                                        if j != n {
                                            assert(l@[j] == lb[j]);
                                            assert(lb[j]@ == view_items(lb)[j]);
                                        }
                                    }
                                    assert(view_items(l@) =~= list_set(l0, n as int, vv));
                                }
                                Ok(Value::List(l))
                            } else {
                                proof {
                                    assert forall|j: int|
                                        0 <= j < l@.len() implies #[trigger] l@[j]@ == (if j
                                        < l0.len() {
                                        l0[j]
                                    } else {
                                        Val::Empty
                                    }) by {
                                        assert(l@[j]@ == view_items(l@)[j]);
                                    }
                                }
                                while l.len() < n
                                    invariant
                                        l0.len() <= l@.len() <= n,
                                        forall|j: int|
                                            0 <= j < l@.len() ==> #[trigger] l@[j]@ == (if j
                                                < l0.len() {
                                                l0[j]
                                            } else {
                                                Val::Empty
                                            }),
                                    decreases n - l@.len(),
                                {
                                    let ghost lb = l@;
                                    l.push(Value::Empty);
                                    proof {
                                        assert forall|j: int|
                                            0 <= j < l@.len() implies #[trigger] l@[j]@ == (if j
                                            < l0.len() {
                                            l0[j]
                                        } else {
                                            Val::Empty
                                        }) by {
                                            if j < lb.len() {
                                                assert(l@[j] == lb[j]);
                                            } else {
                                                assert(l@[j] == Value::Empty);
                                            }
                                        }
                                    }
                                }
                                let ghost lb2 = l@;
                                l.push(value);
                                proof {
                                    assert forall|j: int|
                                        0 <= j < view_items(l@).len() implies view_items(l@)[j]
                                        == list_set(l0, n as int, vv)[j] by {
                                        assert(view_items(l@)[j] == l@[j]@);
                                        if j < lb2.len() {
                                            assert(l@[j] == lb2[j]);
                                        }
                                    }
                                    assert(view_items(l@) =~= list_set(l0, n as int, vv));
                                }
                                Ok(Value::List(l))
                            }
                        },
                        Indexer::String(s) => {
                            if matches!(value, Value::Empty) {
                                l.push(Value::String(s.clone()));
                                proof {
                                    assert(view_items(l@) =~= l0.push(Val::Str(s@)));
                                }
                                Ok(Value::List(l))
                            } else {
                                match flags_entries(&l) {
                                    Ok(mut mm) => {
                                        proof {
                                            lemma_flags_to_map_wf(
                                                l0,
                                                Seq::<(Seq<char>, Val)>::empty(),
                                            );
                                        }
                                        map_insert_entry(&mut mm, s.clone(), value);
                                        Ok(Value::Mapping(mm))
                                    },
                                    Err(b) => Err((
                                        Value::List(l),
                                        Error::CouldNotConvertToMap(b),
                                    )),
                                }
                            }
                        },
                    }
                } else {
                    l.push(value);
                    proof {
                        assert(view_items(l@) =~= l0.push(vv));
                    }
                    Ok(Value::List(l))
                }
            },
            Value::String(s) => {
                let ghost ss = s@;
                if pos < path.len() {
                    let ix = path.seg(pos);
                    match ix {
                        Indexer::Empty => {
                            let mut l2: Vec<Value> = Vec::new();
                            l2.push(Value::String(s));
                            l2.push(value);
                            proof {
                                assert(view_items(l2@) =~= seq![Val::Str(ss), vv]);
                            }
                            Ok(Value::List(l2))
                        },
                        Indexer::String(s2) => {
                            if matches!(value, Value::Empty) {
                                let mut l2: Vec<Value> = Vec::new();
                                l2.push(Value::String(s));
                                l2.push(Value::String(s2.clone()));
                                proof {
                                    assert(view_items(l2@) =~= seq![
                                        Val::Str(ss),
                                        Val::Str(s2@),
                                    ]);
                                }
                                Ok(Value::List(l2))
                            } else {
                                let ix2 = ix.clone();
                                let node = Value::String(s);
                                let dup = node.clone();
                                Err((node, Error::CouldNotAppend(dup, Some(ix2), value)))
                            }
                        },
                        Indexer::Number(_) => {
                            if matches!(value, Value::Empty) {
                                Ok(Value::String(s))
                            } else {
                                let ix2 = ix.clone();
                                let node = Value::String(s);
                                let dup = node.clone();
                                Err((node, Error::CouldNotAppend(dup, Some(ix2), value)))
                            }
                        },
                    }
                } else {
                    let mut l2: Vec<Value> = Vec::new();
                    l2.push(Value::String(s));
                    l2.push(value);
                    proof {
                        assert(view_items(l2@) =~= seq![Val::Str(ss), vv]);
                    }
                    Ok(Value::List(l2))
                }
            },
            Value::Empty => {
                if pos < path.len() {
                    let ix = path.seg(pos);
                    match ix {
                        Indexer::Empty => {
                            let mut l2: Vec<Value> = Vec::new();
                            l2.push(value);
                            proof {
                                assert(view_items(l2@) =~= seq![vv]);
                            }
                            Ok(Value::List(l2))
                        },
                        Indexer::String(k) => {
                            if matches!(value, Value::Empty) {
                                Ok(Value::String(k.clone()))
                            } else {
                                match Value::new_map().inner_append(path, pos, value) {
                                    Ok(v2) => Ok(v2),
                                    Err((_, e)) => Err((Value::Empty, e)),
                                }
                            }
                        },
                        Indexer::Number(_) => {
                            if matches!(value, Value::Empty) {
                                Ok(Value::Empty)
                            } else {
                                match Value::new_list().inner_append(path, pos, value) {
                                    Ok(v2) => Ok(v2),
                                    Err((_, e)) => Err((Value::Empty, e)),
                                }
                            }
                        },
                    }
                } else {
                    Ok(value)
                }
            },
        }
    }

    fn get_at(&self, path: &IndexPath, pos: usize) -> (r: Option<&Value>)
        requires
            pos <= path@.len(),
            wf(self@),
        ensures
            match spec_get(self@, path@, pos as int) {
                Some(v) => r matches Some(out) && out@ == v,
                None => r is None,
            },
        decreases path@.len() - pos,
    {
        if pos >= path.len() {
            return Some(self);
        }
        let ix = path.seg(pos);
        match (self, ix) {
            (Value::Mapping(m), Indexer::String(k)) => {
                let ghost m0 = view_entries(m@);
                let p = find_slot(m, k.as_str());
                proof {
                    lemma_map_find_at(m0, k@, p as int);
                }
                if p < m.len() && str_compare(m[p].0.as_str(), k.as_str()) == 0 {
                    proof {
                        assert(wf(m0[p as int].1));
                    }
                    m[p].1.get_at(path, pos + 1)
                } else {
                    None
                }
            },
            (Value::List(l), Indexer::Number(n)) => {
                if *n < l.len() {
                    proof {
                        assert(wf(view_items(l@)[*n as int]));
                        assert(view_items(l@)[*n as int] == l@[*n as int]@);
                    }
                    l[*n].get_at(path, pos + 1)
                } else {
                    None
                }
            },
            _ => None,
        }
    }

    /// Looks the path up; absence or a shape mismatch is `None`, never
    /// an error.
    pub fn get(&self, path: &IndexPath) -> (r: Option<&Value>)
        requires
            wf(self@),
        ensures
            match spec_get(self@, path@, 0) {
                Some(v) => r matches Some(out) && out@ == v,
                None => r is None,
            },
    {
        self.get_at(path, 0)
    }

    /// The scalar string this value holds, if it is one.
    pub fn as_str(&self) -> (r: Option<&str>)
        ensures
            match self@ {
                Val::Str(s) => r matches Some(o) && o@ == s,
                _ => r is None,
            },
    {
        match self {
            Value::String(s) => Some(s.as_str()),
            _ => None,
        }
    }

    /// The elements this value holds, if it is a list.
    pub fn as_slice(&self) -> (r: Option<&[Value]>)
        ensures
            match self@ {
                Val::List(items) => r matches Some(o) && view_items(o@) == items,
                _ => r is None,
            },
    {
        match self {
            Value::List(l) => Some(l.as_slice()),
            _ => None,
        }
    }

    /// The entries this value holds, if it is a map, ordered by key.
    pub fn as_map(&self) -> (r: Option<&Vec<(String, Value)>>)
        ensures
            match self@ {
                Val::Mapping(m) => r matches Some(o) && view_entries(o@) == m,
                _ => r is None,
            },
    {
        match self {
            Value::Mapping(m) => Some(m),
            _ => None,
        }
    }

    /// The scalar string at `path`, if the path leads to one.
    pub fn get_str(&self, path: &IndexPath) -> (r: Option<&str>)
        requires
            wf(self@),
        ensures
            match spec_get(self@, path@, 0) {
                Some(Val::Str(s)) => r matches Some(o) && o@ == s,
                _ => r is None,
            },
    {
        match self.get(path) {
            Some(v) => v.as_str(),
            None => None,
        }
    }

    /// The list at `path`, if the path leads to one.
    pub fn get_slice(&self, path: &IndexPath) -> (r: Option<&[Value]>)
        requires
            wf(self@),
        ensures
            match spec_get(self@, path@, 0) {
                Some(Val::List(items)) => r matches Some(o) && view_items(o@) == items,
                _ => r is None,
            },
    {
        match self.get(path) {
            Some(v) => v.as_slice(),
            None => None,
        }
    }

    /// The map at `path`, if the path leads to one.
    pub fn get_map(&self, path: &IndexPath) -> (r: Option<&Vec<(String, Value)>>)
        requires
            wf(self@),
        ensures
            match spec_get(self@, path@, 0) {
                Some(Val::Mapping(m)) => r matches Some(o) && view_entries(o@) == m,
                _ => r is None,
            },
    {
        match self.get(path) {
            Some(v) => v.as_map(),
            None => None,
        }
    }

    /// Whether this value holds nothing.
    #[verifier::loop_isolation(false)]
    pub fn is_empty(&self) -> (r: bool)
        ensures
            r == spec_is_empty(self@),
        decreases self,
    {
        match self {
            Value::Mapping(m) => {
                proof {
                    assert(spec_is_empty(self@) == (view_entries(m@).len() == 0));
                }
                m.len() == 0
            },
            Value::List(l) => {
                let mut i: usize = 0;
                let mut all_empty = true;
                while i < l.len()
                    invariant
                        i <= l@.len(),
                        all_empty == (forall|j: int|
                            0 <= j < i ==> spec_is_empty(#[trigger] view_items(l@)[j])),
                    decreases l@.len() - i,
                {
                    proof {
                        assert(decreases_to!(*self => *l));
                        assert(decreases_to!(*l => l@));
                        assert(decreases_to!(l@ => l@[i as int]));
                    }
                    if !l[i].is_empty() {
                        all_empty = false;
                    }
                    proof {
                        assert(view_items(l@)[i as int] == l@[i as int]@);
                    }
                    i += 1;
                }
                proof {
                    let items = view_items(l@);
                    if all_empty {
                        assert(spec_is_empty(self@));
                    } else {
                        assert(i > 0);
                        let j = choose|j: int|
                            0 <= j < items.len() && !spec_is_empty(#[trigger] items[j]);
                        assert(!spec_is_empty(items[j]));
                        assert(!spec_is_empty((self@->List_0)[j]));
                        assert(!spec_is_empty(self@));
                    }
                }
                l.len() == 0 || all_empty
            },
            Value::String(s) => {
                proof {
                    assert(spec_is_empty(self@) == (s@.len() == 0));
                }
                s.as_str().is_empty()
            },
            Value::Empty => true,
        }
    }

    /// The number of entries a map holds, elements a list holds, or
    /// bytes a string holds.
    pub fn len(&self) -> (n: usize)
        ensures
            n == spec_len(self@),
    {
        match self {
            Value::Mapping(m) => {
                proof {
                    assert(self@ == Val::Mapping(view_entries(m@)));
                    assert(spec_len(self@) == view_entries(m@).len());
                    assert(view_entries(m@).len() == m@.len());
                }
                m.len()
            },
            Value::List(l) => {
                proof {
                    assert(spec_len(self@) == view_items(l@).len());
                }
                l.len()
            },
            Value::String(s) => {
                proof {
                    assert(spec_len(self@) == (vstd::utf8::encode_utf8(s@).len() as usize) as int);
                }
                s.as_str().len()
            },
            Value::Empty => 0,
        }
    }

    /// Merges `value` into the tree at `path`, by the rules of
    /// `spec_append`. On failure the tree is left exactly as it was and
    /// the error carries copies of the conflicting parts.
    pub fn append(&mut self, path: &IndexPath, value: Value) -> (r: Result<(), Error>)
        requires
            wf(old(self)@),
            wf(value@),
        ensures
            wf(final(self)@),
            match spec_append(old(self)@, path@, 0, value@) {
                Ok(v2) => r matches Ok(u) && final(self)@ == v2,
                Err(e2) => r matches Err(e) && e@ == e2 && final(self)@ == old(self)@,
            },
    {
        let mut node = Value::Empty;
        core::mem::swap(self, &mut node);
        proof {
            path.lemma_path_ok();
            lemma_append_preserves_wf(node@, path@, 0, value@);
        }
        match node.inner_append(path, 0, value) {
            Ok(v) => {
                *self = v;
                Ok(())
            },
            Err((orig, e)) => {
                *self = orig;
                Err(e)
            },
        }
    }
}

} // verus!
