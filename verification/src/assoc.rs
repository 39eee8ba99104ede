//! Association sequences: sequences of key and value pairs, the mathematical
//! model behind every ordered container of this crate, with the facts about
//! looking keys up in them.

use vstd::prelude::*;

verus! {

/// Whether some pair of `s` has the key `k`.
pub open spec fn has_key<K, X>(s: Seq<(K, X)>, k: K) -> bool {
    exists|i: int| 0 <= i < s.len() && (#[trigger] s[i]).0 == k
}

/// A place where `s` holds the key `k`, if there is one.
pub open spec fn position_of<K, X>(s: Seq<(K, X)>, k: K) -> int {
    choose|i: int| 0 <= i < s.len() && (#[trigger] s[i]).0 == k
}

/// What `s` holds under the key `k`.
pub open spec fn lookup<K, X>(s: Seq<(K, X)>, k: K) -> Option<X> {
    if has_key(s, k) {
        Some(s[position_of(s, k)].1)
    } else {
        None
    }
}

/// No key occurs twice in `s`.
pub open spec fn distinct_keys<K, X>(s: Seq<(K, X)>) -> bool {
    forall|i: int, j: int| 0 <= i < j < s.len() ==> (#[trigger] s[i]).0 != (#[trigger] s[j]).0
}

/// The keys of `s`, in order.
pub open spec fn keys_of<K, X>(s: Seq<(K, X)>) -> Seq<K> {
    s.map_values(|e: (K, X)| e.0)
}

/// The map from each key of `s` to what `s` holds under it.
pub open spec fn assoc_map<K, X>(s: Seq<(K, X)>) -> Map<K, X> {
    Map::new(|k: K| has_key(s, k), |k: K| lookup(s, k).unwrap())
}

/// With distinct keys, a key's value is the one that stands beside it.
pub proof fn lemma_lookup_at<K, X>(s: Seq<(K, X)>, i: int)
    requires
        distinct_keys(s),
        0 <= i < s.len(),
    ensures
        has_key(s, s[i].0),
        lookup(s, s[i].0) == Some(s[i].1),
{
    assert(s[i].0 == s[i].0);
    let p = position_of(s, s[i].0);
    assert(s[p].0 == s[i].0);
    if p < i {
        assert(s[p].0 != s[i].0);
    } else if i < p {
        assert(s[i].0 != s[p].0);
    }
}

/// What a new pair at the end does to the keys.
pub proof fn lemma_push_keys<K, X>(s: Seq<(K, X)>, e: (K, X))
    requires
        distinct_keys(s),
        !has_key(s, e.0),
    ensures
        distinct_keys(s.push(e)),
        forall|k: K| has_key(s.push(e), k) <==> (k == e.0 || has_key(s, k)),
        forall|k: K|
            #[trigger] lookup(s.push(e), k) == if k == e.0 {
                Some(e.1)
            } else {
                lookup(s, k)
            },
{
    let t = s.push(e);
    assert forall|i: int, j: int| 0 <= i < j < t.len() implies (#[trigger] t[i]).0 != (
    #[trigger] t[j]).0 by {
        if j == s.len() {
            assert(s[i].0 != e.0);
        } else {
            assert(s[i].0 != s[j].0);
        }
    }
    assert forall|k: K| has_key(t, k) <==> (k == e.0 || has_key(s, k)) by {
        if has_key(t, k) {
            let i = position_of(t, k);
            if i < s.len() {
                assert(s[i].0 == k);
            }
        }
        if k == e.0 {
            assert(t[s.len() as int].0 == k);
        }
        if has_key(s, k) {
            let i = position_of(s, k);
            assert(t[i].0 == k);
        }
    }
    assert forall|k: K|
        #[trigger] lookup(t, k) == if k == e.0 {
            Some(e.1)
        } else {
            lookup(s, k)
        } by {
        if k == e.0 {
            lemma_lookup_at(t, s.len() as int);
        } else if has_key(s, k) {
            let i = position_of(s, k);
            lemma_lookup_at(s, i);
            lemma_lookup_at(t, i);
        }
    }
}

/// What keeping only the pairs that meet `p` does to the keys.
pub proof fn lemma_filter_keys<K, X>(s: Seq<(K, X)>, p: spec_fn((K, X)) -> bool)
    requires
        distinct_keys(s),
    ensures
        distinct_keys(s.filter(p)),
        forall|k: K|
            #[trigger] lookup(s.filter(p), k) == match lookup(s, k) {
                Some(x) => if p((k, x)) {
                    Some(x)
                } else {
                    None
                },
                None => None,
            },
    decreases s.len(),
{
    reveal(Seq::filter);
    if s.len() > 0 {
        let t = s.drop_last();
        let e = s.last();
        assert(s =~= t.push(e));
        assert(distinct_keys(t)) by {
            assert forall|i: int, j: int| 0 <= i < j < t.len() implies (#[trigger] t[i]).0 != (
            #[trigger] t[j]).0 by {
                assert(s[i].0 != s[j].0);
            }
        }
        assert(!has_key(t, e.0)) by {
            if has_key(t, e.0) {
                let i = position_of(t, e.0);
                assert(s[i].0 != s[s.len() - 1].0);
            }
        }
        lemma_filter_keys(t, p);
        lemma_push_keys(t, e);
        assert(lookup(t.filter(p), e.0) is None);
        if p(e) {
            lemma_push_keys(t.filter(p), e);
        }
        assert forall|k: K|
            #[trigger] lookup(s.filter(p), k) == match lookup(s, k) {
                Some(x) => if p((k, x)) {
                    Some(x)
                } else {
                    None
                },
                None => None,
            } by {
            assert(lookup(s, k) == lookup(t.push(e), k));
        }
    }
}

/// What a change of the values that keeps each key does to the keys.
pub proof fn lemma_map_keys<K, X, Y>(s: Seq<(K, X)>, f: spec_fn((K, X)) -> (K, Y))
    requires
        distinct_keys(s),
        forall|e: (K, X)| (#[trigger] f(e)).0 == e.0,
    ensures
        distinct_keys(s.map_values(f)),
        forall|k: K| has_key(s.map_values(f), k) <==> has_key(s, k),
        forall|k: K|
            #[trigger] lookup(s.map_values(f), k) == match lookup(s, k) {
                Some(x) => Some(f((k, x)).1),
                None => None,
            },
{
    let m = s.map_values(f);
    assert forall|i: int, j: int| 0 <= i < j < m.len() implies (#[trigger] m[i]).0 != (
    #[trigger] m[j]).0 by {
        assert(f(s[i]).0 == s[i].0);
        assert(f(s[j]).0 == s[j].0);
        assert(s[i].0 != s[j].0);
    }
    assert forall|k: K| has_key(m, k) <==> has_key(s, k) by {
        if has_key(m, k) {
            let i = position_of(m, k);
            assert(f(s[i]).0 == s[i].0);
            assert(s[i].0 == k);
        }
        if has_key(s, k) {
            let i = position_of(s, k);
            assert(f(s[i]).0 == s[i].0);
            assert(m[i].0 == k);
        }
    }
    assert forall|k: K|
        #[trigger] lookup(m, k) == match lookup(s, k) {
            Some(x) => Some(f((k, x)).1),
            None => None,
        } by {
        if has_key(s, k) {
            let i = position_of(s, k);
            assert(f(s[i]).0 == s[i].0);
            lemma_lookup_at(s, i);
            lemma_lookup_at(m, i);
        }
    }
}

/// What joining two sequences with no key in common does to the keys.
pub proof fn lemma_concat_keys<K, X>(a: Seq<(K, X)>, b: Seq<(K, X)>)
    requires
        distinct_keys(a),
        distinct_keys(b),
        forall|k: K| !(has_key(a, k) && has_key(b, k)),
    ensures
        distinct_keys(a + b),
        forall|k: K| has_key(a + b, k) <==> (has_key(a, k) || has_key(b, k)),
        forall|k: K|
            #[trigger] lookup(a + b, k) == if has_key(a, k) {
                lookup(a, k)
            } else {
                lookup(b, k)
            },
{
    let c = a + b;
    assert forall|i: int, j: int| 0 <= i < j < c.len() implies (#[trigger] c[i]).0 != (
    #[trigger] c[j]).0 by {
        if j < a.len() {
            assert(a[i].0 != a[j].0);
        } else if i >= a.len() {
            assert(b[i - a.len()].0 != b[j - a.len()].0);
        } else {
            assert(a[i].0 == c[i].0);
            assert(b[j - a.len()].0 == c[j].0);
            assert(!(has_key(a, c[i].0) && has_key(b, c[i].0)));
        }
    }
    assert forall|k: K| has_key(c, k) <==> (has_key(a, k) || has_key(b, k)) by {
        if has_key(c, k) {
            let i = position_of(c, k);
            if i < a.len() {
                assert(a[i].0 == k);
            } else {
                assert(b[i - a.len()].0 == k);
            }
        }
        if has_key(a, k) {
            let i = position_of(a, k);
            assert(c[i].0 == k);
        }
        if has_key(b, k) {
            let i = position_of(b, k);
            assert(c[i + a.len()].0 == k);
        }
    }
    assert forall|k: K|
        #[trigger] lookup(c, k) == if has_key(a, k) {
            lookup(a, k)
        } else {
            lookup(b, k)
        } by {
        if has_key(a, k) {
            let i = position_of(a, k);
            lemma_lookup_at(a, i);
            lemma_lookup_at(c, i);
        } else if has_key(b, k) {
            let i = position_of(b, k);
            lemma_lookup_at(b, i);
            lemma_lookup_at(c, i + a.len());
        }
    }
}

/// Two sequences with the same keys in the same order, none twice, that
/// hold the same value under every key are the same sequence.
pub proof fn lemma_same_keys_same_values<K, X>(a: Seq<(K, X)>, b: Seq<(K, X)>)
    requires
        distinct_keys(a),
        keys_of(a) == keys_of(b),
        forall|k: K| lookup(a, k) == lookup(b, k),
    ensures
        a == b,
{
    assert(keys_of(a).len() == a.len());
    assert(keys_of(b).len() == b.len());
    assert forall|i: int| 0 <= i < a.len() implies a[i] == b[i] by {
        assert(keys_of(a)[i] == a[i].0);
        assert(keys_of(b)[i] == b[i].0);
        assert(distinct_keys(b)) by {
            assert forall|x: int, y: int| 0 <= x < y < b.len() implies (#[trigger] b[x]).0 != (
            #[trigger] b[y]).0 by {
                assert(keys_of(a)[x] == a[x].0);
                assert(keys_of(b)[x] == b[x].0);
                assert(keys_of(a)[y] == a[y].0);
                assert(keys_of(b)[y] == b[y].0);
                assert(a[x].0 != a[y].0);
            }
        }
        lemma_lookup_at(a, i);
        lemma_lookup_at(b, i);
        assert(lookup(a, a[i].0) == lookup(b, a[i].0));
    }
    assert(a =~= b);
}


/// A filter that every element passes changes nothing.
pub proof fn lemma_filter_all<A>(s: Seq<A>, p: spec_fn(A) -> bool)
    requires
        forall|i: int| 0 <= i < s.len() ==> p(#[trigger] s[i]),
    ensures
        s.filter(p) == s,
    decreases s.len(),
{
    reveal(Seq::filter);
    if s.len() > 0 {
        let t = s.drop_last();
        assert forall|i: int| 0 <= i < t.len() implies p(#[trigger] t[i]) by {
            assert(t[i] == s[i]);
        }
        lemma_filter_all(t, p);
        assert(p(s[s.len() - 1]));
        assert(t.push(s.last()) =~= s);
    }
}

/// A filter that no element passes leaves nothing.
pub proof fn lemma_filter_none<A>(s: Seq<A>, p: spec_fn(A) -> bool)
    requires
        forall|i: int| 0 <= i < s.len() ==> !p(#[trigger] s[i]),
    ensures
        s.filter(p) == Seq::<A>::empty(),
    decreases s.len(),
{
    reveal(Seq::filter);
    if s.len() > 0 {
        let t = s.drop_last();
        assert forall|i: int| 0 <= i < t.len() implies !p(#[trigger] t[i]) by {
            assert(t[i] == s[i]);
        }
        lemma_filter_none(t, p);
        assert(!p(s[s.len() - 1]));
    } else {
        assert(s =~= Seq::<A>::empty());
    }
}

/// Two tests that agree on every element of `s` keep the same elements.
pub proof fn lemma_filter_agree<A>(s: Seq<A>, p: spec_fn(A) -> bool, q: spec_fn(A) -> bool)
    requires
        forall|i: int| 0 <= i < s.len() ==> p(#[trigger] s[i]) == q(s[i]),
    ensures
        s.filter(p) == s.filter(q),
    decreases s.len(),
{
    reveal(Seq::filter);
    if s.len() > 0 {
        let t = s.drop_last();
        assert forall|i: int| 0 <= i < t.len() implies p(#[trigger] t[i]) == q(t[i]) by {
            assert(t[i] == s[i]);
        }
        lemma_filter_agree(t, p, q);
        assert(p(s[s.len() - 1]) == q(s[s.len() - 1]));
    }
}

/// Filtering twice keeps what passes both tests.
pub proof fn lemma_filter_twice<A>(s: Seq<A>, p: spec_fn(A) -> bool, q: spec_fn(A) -> bool)
    ensures
        s.filter(p).filter(q) == s.filter(|a: A| p(a) && q(a)),
    decreases s.len(),
{
    reveal(Seq::filter);
    let both = |a: A| p(a) && q(a);
    if s.len() > 0 {
        let t = s.drop_last();
        lemma_filter_twice(t, p, q);
        assert(t.filter(p).filter(q) == t.filter(both));
        if p(s.last()) {
            t.filter(p).lemma_filter_push(s.last(), q);
        }
    } else {
        assert(s.filter(p) =~= Seq::<A>::empty());
    }
}

/// Every element of a filtered sequence passes the test and comes from the
/// sequence.
pub proof fn lemma_filter_from<A>(s: Seq<A>, p: spec_fn(A) -> bool)
    ensures
        forall|i: int|
            0 <= i < s.filter(p).len() ==> p(#[trigger] s.filter(p)[i]) && s.contains(
                s.filter(p)[i],
            ),
    decreases s.len(),
{
    reveal(Seq::filter);
    if s.len() > 0 {
        let t = s.drop_last();
        lemma_filter_from(t, p);
        assert forall|i: int| 0 <= i < s.filter(p).len() implies p(#[trigger] s.filter(p)[i])
            && s.contains(s.filter(p)[i]) by {
            if i < t.filter(p).len() {
                let x = t.filter(p)[i];
                assert(t.contains(x));
                let j = choose|j: int| 0 <= j < t.len() && t[j] == x;
                assert(s[j] == x);
            } else {
                assert(s[s.len() - 1] == s.last());
            }
        }
    }
}


/// `i` is the first place at which `s` holds the key `k`.
pub open spec fn is_first<K, X>(s: Seq<(K, X)>, k: K, i: int) -> bool {
    &&& 0 <= i < s.len()
    &&& s[i].0 == k
    &&& forall|j: int| 0 <= j < i ==> (#[trigger] s[j]).0 != k
}

/// What `s` holds under the first occurrence of the key `k`. Where no key
/// occurs twice this is `lookup`.
pub open spec fn first_value<K, X>(s: Seq<(K, X)>, k: K) -> Option<X> {
    if exists|i: int| is_first(s, k, i) {
        Some(s[choose|i: int| is_first(s, k, i)].1)
    } else {
        None
    }
}

/// The first occurrence decides `first_value`.
pub proof fn lemma_first_value<K, X>(s: Seq<(K, X)>, k: K, i: int)
    requires
        is_first(s, k, i),
    ensures
        first_value(s, k) == Some(s[i].1),
{
    let p = choose|p: int| is_first(s, k, p);
    if p < i {
        assert(s[p].0 != k);
    } else if i < p {
        assert(s[i].0 != k);
    }
}

/// A key that occurs nowhere has no first value.
pub proof fn lemma_first_value_none<K, X>(s: Seq<(K, X)>, k: K)
    requires
        !has_key(s, k),
    ensures
        first_value(s, k) is None,
{
    if exists|i: int| is_first(s, k, i) {
        let p = choose|p: int| is_first(s, k, p);
        assert(s[p].0 == k);
    }
}


/// The first place at which `s` holds the key `k`.
pub open spec fn first_place<K, X>(s: Seq<(K, X)>, k: K) -> int {
    choose|i: int| is_first(s, k, i)
}

/// The first occurrence decides `first_place`.
pub proof fn lemma_first_place<K, X>(s: Seq<(K, X)>, k: K, i: int)
    requires
        is_first(s, k, i),
    ensures
        first_place(s, k) == i,
        first_value(s, k) == Some(s[i].1),
{
    lemma_first_value(s, k, i);
    let p = choose|p: int| is_first(s, k, p);
    if p < i {
        assert(s[p].0 != k);
    } else if i < p {
        assert(s[i].0 != k);
    }
}

/// Where no key occurs twice, the first value under a key is the value
/// under it.
pub proof fn lemma_first_value_is_lookup<K, X>(s: Seq<(K, X)>, k: K)
    requires
        distinct_keys(s),
    ensures
        first_value(s, k) == lookup(s, k),
{
    if has_key(s, k) {
        let i = position_of(s, k);
        lemma_lookup_at(s, i);
        assert(is_first(s, k, i)) by {
            assert forall|j: int| 0 <= j < i implies (#[trigger] s[j]).0 != k by {
                assert(s[j].0 != s[i].0);
            }
        }
        lemma_first_value(s, k, i);
    } else {
        lemma_first_value_none(s, k);
    }
}

/// `s` with `x` under `k`: in the place of the first value under the key
/// where `s` has it, else at the end.
pub open spec fn put<K, X>(s: Seq<(K, X)>, k: K, x: X) -> Seq<(K, X)> {
    if first_value(s, k) is Some {
        s.update(first_place(s, k), (k, x))
    } else {
        s.push((k, x))
    }
}

/// What putting the pairs of `s` one by one into an empty map leaves: each
/// key once, where it first came, with the value that came last.
pub open spec fn indexed<K, X>(s: Seq<(K, X)>) -> Seq<(K, X)>
    decreases s.len(),
{
    if s.len() == 0 {
        Seq::empty()
    } else {
        put(indexed(s.drop_last()), s.last().0, s.last().1)
    }
}

} // verus!
