//! Selection over the rows of one relation, and facts about which rows a
//! relation holds.
use vstd::prelude::*;

verus! {

broadcast use vstd::seq_lib::group_filter_ensures;

/// A row that can be copied with its value known.
pub trait Row: Sized {
    fn duplicate(&self) -> (r: Self)
        ensures
            r == *self,
    ;
}

/// Some row of `s` satisfies `p`.
pub open spec fn seq_any<A>(s: Seq<A>, p: spec_fn(A) -> bool) -> bool {
    exists|k: int| 0 <= k < s.len() && #[trigger] p(s[k])
}

/// Every row of `s` satisfies `p`.
pub open spec fn seq_all<A>(s: Seq<A>, p: spec_fn(A) -> bool) -> bool {
    forall|k: int| 0 <= k < s.len() ==> #[trigger] p(s[k])
}

pub proof fn lemma_any_push<A>(s: Seq<A>, p: spec_fn(A) -> bool, x: A)
    requires
        seq_any(s, p),
    ensures
        seq_any(s.push(x), p),
{
    let k = choose|k: int| 0 <= k < s.len() && #[trigger] p(s[k]);
    assert(s.push(x)[k] == s[k]);
}

/// A row that `q` keeps, and that satisfies `p`, is still found after filtering by `q`.
pub proof fn lemma_any_filter<A>(s: Seq<A>, p: spec_fn(A) -> bool, q: spec_fn(A) -> bool)
    requires
        seq_any(s, p),
        forall|k: int| 0 <= k < s.len() && #[trigger] p(s[k]) ==> q(s[k]),
    ensures
        seq_any(s.filter(q), p),
{
    let k = choose|k: int| 0 <= k < s.len() && #[trigger] p(s[k]);
    assert(s.filter(q).contains(s[k]));
    let j = choose|j: int| 0 <= j < s.filter(q).len() && s.filter(q)[j] == s[k];
    assert(p(s.filter(q)[j]));
}

pub proof fn lemma_all_filter<A>(s: Seq<A>, p: spec_fn(A) -> bool, q: spec_fn(A) -> bool)
    requires
        seq_all(s, p),
    ensures
        seq_all(s.filter(q), p),
    decreases s.len(),
{
    reveal(Seq::filter);
    if s.len() > 0 {
        let t = s.drop_last();
        assert(seq_all(t, p)) by {
            assert forall|k: int| 0 <= k < t.len() implies #[trigger] p(t[k]) by {
                assert(t[k] == s[k]);
            }
        }
        lemma_all_filter(t, p, q);
        assert(p(s[s.len() - 1]));
    }
}

/// No two distinct rows of `s` share a key.
pub open spec fn keys_unique<A>(s: Seq<A>, key: spec_fn(A) -> i64) -> bool {
    forall|i: int, j: int|
        0 <= i < s.len() && 0 <= j < s.len() && key(#[trigger] s[i]) == key(#[trigger] s[j])
            ==> s[i] == s[j]
}

/// Every key of `s` is positive and below `n`.
pub open spec fn keys_below<A>(s: Seq<A>, key: spec_fn(A) -> i64, n: i64) -> bool {
    forall|k: int| 0 <= k < s.len() ==> 0 < #[trigger] key(s[k]) && key(s[k]) < n
}

/// A relation that keeps its rows in place, changing some of their fields
/// but not their keys, still has unique keys below the same bound.
pub proof fn lemma_keys_map<A>(s: Seq<A>, t: Seq<A>, key: spec_fn(A) -> i64, n: i64)
    requires
        keys_unique(s, key),
        keys_below(s, key, n),
        t.len() == s.len(),
        forall|k: int| 0 <= k < s.len() ==> #[trigger] key(t[k]) == key(s[k]),
        forall|i: int, j: int| 0 <= i < s.len() && 0 <= j < s.len() && s[i] == s[j] ==> t[i] == t[j],
    ensures
        keys_unique(t, key),
        keys_below(t, key, n),
{
    assert forall|i: int, j: int|
        0 <= i < t.len() && 0 <= j < t.len() && key(#[trigger] t[i]) == key(#[trigger] t[j])
            implies t[i] == t[j] by {
        assert(key(s[i]) == key(t[i]));
        assert(key(s[j]) == key(t[j]));
    }
    assert forall|k: int| 0 <= k < t.len() implies 0 < #[trigger] key(t[k]) && key(t[k]) < n by {
        assert(key(s[k]) == key(t[k]));
    }
}

/// Filtering finds no row that the unfiltered sequence did not hold.
pub proof fn lemma_none_filter<A>(s: Seq<A>, p: spec_fn(A) -> bool, q: spec_fn(A) -> bool)
    requires
        !seq_any(s, p),
    ensures
        !seq_any(s.filter(q), p),
{
    if seq_any(s.filter(q), p) {
        let k = choose|k: int| 0 <= k < s.filter(q).len() && #[trigger] p(s.filter(q)[k]);
        lemma_filter_member(s, q, k);
        let j = choose|j: int| 0 <= j < s.len() && s[j] == s.filter(q)[k];
        assert(p(s[j]));
    }
}

/// Filtering by a predicate that every row satisfies keeps every row.
pub proof fn lemma_filter_all<A>(s: Seq<A>, q: spec_fn(A) -> bool)
    requires
        seq_all(s, q),
    ensures
        s.filter(q) == s,
    decreases s.len(),
{
    reveal(Seq::filter);
    if s.len() > 0 {
        let t = s.drop_last();
        assert(seq_all(t, q)) by {
            assert forall|k: int| 0 <= k < t.len() implies #[trigger] q(t[k]) by {
                assert(t[k] == s[k]);
            }
        }
        lemma_filter_all(t, q);
        assert(q(s[s.len() - 1]));
        assert(t.push(s.last()) == s);
    }
}

/// A filter that rejects every row satisfying `p` leaves no such row.
pub proof fn lemma_filter_excludes<A>(s: Seq<A>, p: spec_fn(A) -> bool, q: spec_fn(A) -> bool)
    requires
        forall|x: A| #[trigger] q(x) ==> !p(x),
    ensures
        !seq_any(s.filter(q), p),
{
    if seq_any(s.filter(q), p) {
        let k = choose|k: int| 0 <= k < s.filter(q).len() && #[trigger] p(s.filter(q)[k]);
        assert(q(s.filter(q)[k]));
    }
}

/// Filtering twice keeps the rows that pass both filters.
pub proof fn lemma_filter_filter<A>(s: Seq<A>, p: spec_fn(A) -> bool, q: spec_fn(A) -> bool)
    ensures
        s.filter(p).filter(q) == s.filter(|x: A| p(x) && q(x)),
    decreases s.len(),
{
    reveal(Seq::filter);
    if s.len() > 0 {
        lemma_filter_filter(s.drop_last(), p, q);
        let last = s.last();
        if p(last) {
            assert(s.filter(p).drop_last() == s.drop_last().filter(p));
        }
    }
}

/// When no row satisfies `p`, filtering by it leaves nothing.
pub proof fn lemma_filter_none<A>(s: Seq<A>, p: spec_fn(A) -> bool)
    requires
        forall|k: int| 0 <= k < s.len() ==> !p(#[trigger] s[k]),
    ensures
        s.filter(p) == Seq::<A>::empty(),
{
    if s.filter(p).len() > 0 {
        lemma_filter_member(s, p, 0);
        assert(p(s.filter(p)[0]));
        let j = choose|j: int| 0 <= j < s.len() && s[j] == s.filter(p)[0];
        assert(!p(s[j]));
    }
    assert(s.filter(p) =~= Seq::<A>::empty());
}

/// Filtering a sequence that extends `before` filters `before` and the
/// added tail separately.
pub proof fn lemma_filter_extend<A>(before: Seq<A>, after: Seq<A>, p: spec_fn(A) -> bool)
    requires
        before.len() <= after.len(),
        after.subrange(0, before.len() as int) == before,
    ensures
        after.filter(p) == before.filter(p) + after.subrange(before.len() as int, after.len() as int).filter(p),
{
    let tail = after.subrange(before.len() as int, after.len() as int);
    assert(after =~= before + tail);
    Seq::filter_distributes_over_add(before, tail, p);
}

/// Filtering out a row that is there shortens the sequence.
pub proof fn lemma_filter_len_lt<A>(s: Seq<A>, q: spec_fn(A) -> bool, k: int)
    requires
        0 <= k < s.len(),
        !q(s[k]),
    ensures
        s.filter(q).len() < s.len(),
    decreases s.len(),
{
    reveal(Seq::filter);
    let t = s.drop_last();
    t.lemma_filter_len(q);
    if k < s.len() - 1 {
        assert(t[k] == s[k]);
        lemma_filter_len_lt(t, q, k);
    }
}

/// A stricter filter keeps no more rows.
pub proof fn lemma_filter_len_implies<A>(s: Seq<A>, p: spec_fn(A) -> bool, q: spec_fn(A) -> bool)
    requires
        forall|x: A| #[trigger] p(x) ==> q(x),
    ensures
        s.filter(p).len() <= s.filter(q).len(),
    decreases s.len(),
{
    reveal(Seq::filter);
    if s.len() > 0 {
        lemma_filter_len_implies(s.drop_last(), p, q);
    }
}

/// A filtered sequence is no longer than the unfiltered one.
pub proof fn lemma_filter_len_bound<A>(s: Seq<A>, q: spec_fn(A) -> bool)
    ensures
        s.filter(q).len() <= s.len(),
{
    s.lemma_filter_len(q);
}

/// Each row of a filtered sequence is a row of the unfiltered one.
pub proof fn lemma_filter_member<A>(s: Seq<A>, q: spec_fn(A) -> bool, k: int)
    requires
        0 <= k < s.filter(q).len(),
    ensures
        s.contains(s.filter(q)[k]),
{
    let p = |x: A| s.contains(x);
    assert(seq_all(s, p)) by {
        assert forall|j: int| 0 <= j < s.len() implies #[trigger] p(s[j]) by {
            assert(s.contains(s[j]));
        }
    }
    lemma_all_filter(s, p, q);
    assert(p(s.filter(q)[k]));
}

pub proof fn lemma_keys_filter<A>(s: Seq<A>, key: spec_fn(A) -> i64, n: i64, q: spec_fn(A) -> bool)
    requires
        keys_unique(s, key),
        keys_below(s, key, n),
    ensures
        keys_unique(s.filter(q), key),
        keys_below(s.filter(q), key, n),
{
    let t = s.filter(q);
    assert forall|i: int, j: int|
        0 <= i < t.len() && 0 <= j < t.len() && key(#[trigger] t[i]) == key(#[trigger] t[j])
            implies t[i] == t[j] by {
        lemma_filter_member(s, q, i);
        lemma_filter_member(s, q, j);
    }
    assert forall|k: int| 0 <= k < t.len() implies 0 < #[trigger] key(t[k]) && key(t[k]) < n by {
        lemma_filter_member(s, q, k);
    }
}

pub proof fn lemma_keys_push<A>(s: Seq<A>, key: spec_fn(A) -> i64, n: i64, x: A)
    requires
        keys_unique(s, key),
        keys_below(s, key, n),
        key(x) == n,
        0 < n < i64::MAX,
    ensures
        keys_unique(s.push(x), key),
        keys_below(s.push(x), key, (n + 1) as i64),
{
    let t = s.push(x);
    assert forall|i: int, j: int|
        0 <= i < t.len() && 0 <= j < t.len() && key(#[trigger] t[i]) == key(#[trigger] t[j])
            implies t[i] == t[j] by {
        if i < s.len() {
            assert(t[i] == s[i]);
        }
        if j < s.len() {
            assert(t[j] == s[j]);
        }
    }
    assert forall|k: int| 0 <= k < t.len() implies 0 < #[trigger] key(t[k]) && key(t[k]) < n + 1 by {
        if k < s.len() {
            assert(t[k] == s[k]);
        }
    }
}

/// The rows of `v` that `f` accepts, in their order; `f` decides `p`.
pub fn select<R: Row, F: Fn(&R) -> bool>(v: &Vec<R>, f: F, Ghost(p): Ghost<spec_fn(R) -> bool>) -> (r: Vec<R>)
    requires
        forall|x: &R| #[trigger] f.requires((x,)),
        forall|x: &R, b: bool| f.ensures((x,), b) ==> b == p(*x),
    ensures
        r@ == v@.filter(p),
{
    let mut r: Vec<R> = Vec::new();
    let mut i: usize = 0;
    while i < v.len()
        invariant
            i <= v.len(),
            forall|x: &R| #[trigger] f.requires((x,)),
            forall|x: &R, b: bool| f.ensures((x,), b) ==> b == p(*x),
            r@ == v@.subrange(0, i as int).filter(p),
        decreases v.len() - i,
    {
        proof {
            assert(v@.subrange(0, i as int + 1).drop_last() == v@.subrange(0, i as int));
            reveal(Seq::filter);
        }
        if f(&v[i]) {
            r.push(v[i].duplicate());
        }
        i = i + 1;
    }
    assert(v@.subrange(0, v.len() as int) == v@);
    r
}

/// The first row of `v` that `f` accepts, if any; `f` decides `p`.
pub fn find_row<R: Row, F: Fn(&R) -> bool>(v: &Vec<R>, f: F, Ghost(p): Ghost<spec_fn(R) -> bool>) -> (r: Option<R>)
    requires
        forall|x: &R| #[trigger] f.requires((x,)),
        forall|x: &R, b: bool| f.ensures((x,), b) ==> b == p(*x),
    ensures
        r is Some <==> seq_any(v@, p),
        r matches Some(x) ==> v@.contains(x) && p(x),
{
    let mut i: usize = 0;
    while i < v.len()
        invariant
            i <= v.len(),
            forall|x: &R| #[trigger] f.requires((x,)),
            forall|x: &R, b: bool| f.ensures((x,), b) ==> b == p(*x),
            forall|k: int| 0 <= k < i ==> !#[trigger] p(v@[k]),
        decreases v.len() - i,
    {
        if f(&v[i]) {
            let x = v[i].duplicate();
            assert(v@[i as int] == x);
            return Some(x);
        }
        i = i + 1;
    }
    None
}

/// A copy of every row of `v`.
pub fn copy_rows<R: Row>(v: &Vec<R>) -> (r: Vec<R>)
    ensures
        r@ == v@,
{
    let mut r: Vec<R> = Vec::new();
    let mut i: usize = 0;
    while i < v.len()
        invariant
            i <= v.len(),
            r@ == v@.subrange(0, i as int),
        decreases v.len() - i,
    {
        r.push(v[i].duplicate());
        i = i + 1;
    }
    assert(v@.subrange(0, v.len() as int) == v@);
    r
}

/// Whether some row of `v` is accepted by `f`, which decides `p`.
pub fn any_row<R, F: Fn(&R) -> bool>(v: &Vec<R>, f: F, Ghost(p): Ghost<spec_fn(R) -> bool>) -> (r: bool)
    requires
        forall|x: &R| #[trigger] f.requires((x,)),
        forall|x: &R, b: bool| f.ensures((x,), b) ==> b == p(*x),
    ensures
        r == seq_any(v@, p),
{
    let mut i: usize = 0;
    while i < v.len()
        invariant
            i <= v.len(),
            forall|x: &R| #[trigger] f.requires((x,)),
            forall|x: &R, b: bool| f.ensures((x,), b) ==> b == p(*x),
            forall|k: int| 0 <= k < i ==> !#[trigger] p(v@[k]),
        decreases v.len() - i,
    {
        if f(&v[i]) {
            return true;
        }
        i = i + 1;
    }
    false
}

/// Whether every row of `v` is accepted by `f`, which decides `p`.
pub fn all_rows<R, F: Fn(&R) -> bool>(v: &Vec<R>, f: F, Ghost(p): Ghost<spec_fn(R) -> bool>) -> (r: bool)
    requires
        forall|x: &R| #[trigger] f.requires((x,)),
        forall|x: &R, b: bool| f.ensures((x,), b) ==> b == p(*x),
    ensures
        r == seq_all(v@, p),
{
    let mut i: usize = 0;
    while i < v.len()
        invariant
            i <= v.len(),
            forall|x: &R| #[trigger] f.requires((x,)),
            forall|x: &R, b: bool| f.ensures((x,), b) ==> b == p(*x),
            forall|k: int| 0 <= k < i ==> #[trigger] p(v@[k]),
        decreases v.len() - i,
    {
        if !f(&v[i]) {
            return false;
        }
        i = i + 1;
    }
    true
}

/// Whether the keys that `f` reads (those of `key`) are all positive, below
/// `n`, and carried by one row each. Compares every pair of rows; two rows
/// that share a key are refused even when they are equal.
pub fn check_keys<R, F: Fn(&R) -> i64>(v: &Vec<R>, f: F, Ghost(key): Ghost<spec_fn(R) -> i64>, n: i64) -> (r: bool)
    requires
        forall|x: &R| #[trigger] f.requires((x,)),
        forall|x: &R, k: i64| f.ensures((x,), k) ==> k == key(*x),
    ensures
        r ==> keys_unique(v@, key) && keys_below(v@, key, n),
        r ==> forall|a: int, b: int| 0 <= a < v@.len() && 0 <= b < v@.len() && a != b ==> key(#[trigger] v@[a]) != key(#[trigger] v@[b]),
        !keys_below(v@, key, n) ==> !r,
{
    let mut i: usize = 0;
    while i < v.len()
        invariant
            i <= v.len(),
            forall|x: &R| #[trigger] f.requires((x,)),
            forall|x: &R, k: i64| f.ensures((x,), k) ==> k == key(*x),
            forall|a: int| 0 <= a < i ==> 0 < #[trigger] key(v@[a]) && key(v@[a]) < n,
            forall|a: int, b: int| 0 <= a < i && 0 <= b < v@.len() && a != b ==> key(#[trigger] v@[a]) != key(#[trigger] v@[b]),
        decreases v.len() - i,
    {
        let ki = f(&v[i]);
        if ki <= 0 || ki >= n {
            return false;
        }
        let mut j: usize = 0;
        while j < v.len()
            invariant
                i < v.len(),
                j <= v.len(),
                ki == key(v@[i as int]),
                forall|x: &R| #[trigger] f.requires((x,)),
                forall|x: &R, k: i64| f.ensures((x,), k) ==> k == key(*x),
                forall|b: int| 0 <= b < j && b != i ==> key(#[trigger] v@[b]) != ki,
            decreases v.len() - j,
        {
            if j != i && f(&v[j]) == ki {
                return false;
            }
            j = j + 1;
        }
        i = i + 1;
    }
    proof {
        assert forall|a: int, b: int| 0 <= a < v@.len() && 0 <= b < v@.len() && key(#[trigger] v@[a]) == key(#[trigger] v@[b])
            implies v@[a] == v@[b] by {
            if a != b {
                assert(key(v@[a]) != key(v@[b]));
            }
        }
    }
    true
}

} // verus!
