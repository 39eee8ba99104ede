//! The laws of the shallow diff and merge on the maps of a hierarchical
//! document, in which a null stands for a key that was removed.

use crate::assoc::{
    distinct_keys, has_key, indexed, is_first, keys_of, lemma_concat_keys, lemma_filter_agree,
    lemma_filter_all, lemma_filter_from, lemma_filter_keys, lemma_filter_none, lemma_filter_twice,
    lemma_first_place, lemma_first_value_is_lookup, lemma_first_value_none, lemma_lookup_at,
    lemma_map_keys, lemma_push_keys, lemma_same_keys_same_values, lookup, position_of, put,
};
use crate::util::differs_from;
use vstd::prelude::*;

verus! {

/// The test for a pair under a key that `base` lacks.
pub open spec fn is_fresh<K, X>(base: Seq<(K, X)>) -> spec_fn((K, X)) -> bool {
    |e: (K, X)| !has_key(base, e.0)
}

/// The test for a pair under a key that `other` has too.
pub open spec fn is_held_by<K, X>(other: Seq<(K, X)>) -> spec_fn((K, X)) -> bool {
    |e: (K, X)| has_key(other, e.0)
}

/// `other` lists the keys that it shares with `base` first and in the
/// order of `base`, and after them the keys that `base` lacks.
pub open spec fn follows<K, X>(base: Seq<(K, X)>, other: Seq<(K, X)>) -> bool {
    keys_of(other) == keys_of(base.filter(is_held_by(other))) + keys_of(
        other.filter(is_fresh(base)),
    )
}

/// Putting a pair into distinct keys leaves distinct keys, with the new
/// value under the key and every other key as it was.
pub proof fn lemma_put_keys<K, X>(s: Seq<(K, X)>, k: K, x: X)
    requires
        distinct_keys(s),
    ensures
        distinct_keys(put(s, k, x)),
        keys_of(put(s, k, x)) == if has_key(s, k) {
            keys_of(s)
        } else {
            keys_of(s).push(k)
        },
        forall|q: K| has_key(put(s, k, x), q) <==> (q == k || has_key(s, q)),
        forall|q: K|
            #[trigger] lookup(put(s, k, x), q) == if q == k {
                Some(x)
            } else {
                lookup(s, q)
            },
{
    lemma_first_value_is_lookup(s, k);
    let t = put(s, k, x);
    if has_key(s, k) {
        let p = position_of(s, k);
        lemma_lookup_at(s, p);
        assert(is_first(s, k, p)) by {
            assert forall|j: int| 0 <= j < p implies (#[trigger] s[j]).0 != k by {
                assert(s[j].0 != s[p].0);
            }
        }
        lemma_first_place(s, k, p);
        assert(t == s.update(p, (k, x)));
        assert(keys_of(t) =~= keys_of(s));
        assert forall|i: int, j: int| 0 <= i < j < t.len() implies (#[trigger] t[i]).0 != (
        #[trigger] t[j]).0 by {
            assert(s[i].0 != s[j].0);
        }
        assert forall|q: K| has_key(t, q) <==> (q == k || has_key(s, q)) by {
            if has_key(t, q) {
                let i = position_of(t, q);
                assert(s[i].0 == t[i].0);
            }
            if has_key(s, q) {
                let i = position_of(s, q);
                assert(t[i].0 == s[i].0);
            }
            if q == k {
                assert(t[p].0 == k);
            }
        }
        assert forall|q: K|
            #[trigger] lookup(t, q) == if q == k {
                Some(x)
            } else {
                lookup(s, q)
            } by {
            if q == k {
                lemma_lookup_at(t, p);
            } else if has_key(s, q) {
                let i = position_of(s, q);
                lemma_lookup_at(s, i);
                lemma_lookup_at(t, i);
            }
        }
    } else {
        lemma_push_keys(s, (k, x));
        assert(keys_of(t) =~= keys_of(s).push(k));
    }
}

/// Collecting keeps the keys distinct; a key is there where it stood in
/// the pairs, and holds the value that came last.
pub proof fn lemma_indexed_keys<K, X>(s: Seq<(K, X)>)
    ensures
        distinct_keys(indexed(s)),
        forall|q: K| has_key(indexed(s), q) <==> has_key(s, q),
    decreases s.len(),
{
    if s.len() > 0 {
        let t = s.drop_last();
        let e = s.last();
        lemma_indexed_keys(t);
        lemma_put_keys(indexed(t), e.0, e.1);
        assert forall|q: K| has_key(indexed(s), q) <==> has_key(s, q) by {
            if has_key(s, q) {
                let i = position_of(s, q);
                if i < t.len() {
                    assert(t[i].0 == q);
                }
            }
            if has_key(t, q) {
                let i = position_of(t, q);
                assert(s[i].0 == q);
            }
            if q == e.0 {
                assert(s[s.len() - 1].0 == q);
            }
        }
    }
}

/// Collecting pairs whose keys are distinct changes nothing.
pub proof fn lemma_indexed_of_distinct<K, X>(s: Seq<(K, X)>)
    requires
        distinct_keys(s),
    ensures
        indexed(s) == s,
    decreases s.len(),
{
    if s.len() == 0 {
        assert(s =~= Seq::empty());
    } else {
        let t = s.drop_last();
        let e = s.last();
        assert(distinct_keys(t)) by {
            assert forall|i: int, j: int| 0 <= i < j < t.len() implies (#[trigger] t[i]).0 != (
            #[trigger] t[j]).0 by {
                assert(s[i].0 != s[j].0);
            }
        }
        lemma_indexed_of_distinct(t);
        assert(!has_key(t, e.0)) by {
            if has_key(t, e.0) {
                let i = position_of(t, e.0);
                assert(s[i].0 != s[s.len() - 1].0);
            }
        }
        lemma_first_value_none(t, e.0);
        assert(t.push(e) =~= s);
    }
}

/// What collecting `a` and then `b` holds: the keys of `a` in their order,
/// then the keys that only `b` has in theirs; under each key the value of
/// `b` where it has the key, else that of `a`.
pub proof fn lemma_indexed_concat<K, X>(a: Seq<(K, X)>, b: Seq<(K, X)>)
    requires
        distinct_keys(a),
        distinct_keys(b),
    ensures
        distinct_keys(indexed(a + b)),
        keys_of(indexed(a + b)) == keys_of(a) + keys_of(b.filter(is_fresh(a))),
        forall|q: K|
            #[trigger] lookup(indexed(a + b), q) == if has_key(b, q) {
                lookup(b, q)
            } else {
                lookup(a, q)
            },
    decreases b.len(),
{
    reveal(Seq::filter);
    if b.len() == 0 {
        assert(a + b =~= a);
        lemma_indexed_of_distinct(a);
        assert(b.filter(is_fresh(a)) =~= Seq::empty());
        assert(keys_of(a) + keys_of(b.filter(is_fresh(a))) =~= keys_of(a));
    } else {
        let t = b.drop_last();
        let e = b.last();
        assert(b =~= t.push(e));
        assert(distinct_keys(t)) by {
            assert forall|i: int, j: int| 0 <= i < j < t.len() implies (#[trigger] t[i]).0 != (
            #[trigger] t[j]).0 by {
                assert(b[i].0 != b[j].0);
            }
        }
        assert(!has_key(t, e.0)) by {
            if has_key(t, e.0) {
                let i = position_of(t, e.0);
                assert(b[i].0 != b[b.len() - 1].0);
            }
        }
        lemma_indexed_concat(a, t);
        assert((a + b).drop_last() =~= a + t);
        assert((a + b).last() == e);
        let m = indexed(a + t);
        lemma_indexed_keys(a + t);
        lemma_put_keys(m, e.0, e.1);
        lemma_push_keys(t, e);
        t.lemma_filter_push(e, is_fresh(a));
        assert(has_key(m, e.0) <==> has_key(a, e.0)) by {
            if has_key(a + t, e.0) {
                let i = position_of(a + t, e.0);
                if i >= a.len() {
                    assert(t[i - a.len()].0 == e.0);
                } else {
                    assert(a[i].0 == e.0);
                }
            }
            if has_key(a, e.0) {
                let i = position_of(a, e.0);
                assert((a + t)[i].0 == e.0);
            }
        }
        if has_key(a, e.0) {
            assert(!is_fresh(a)(e));
        } else {
            assert(is_fresh(a)(e));
            assert(keys_of(t.filter(is_fresh(a)).push(e)) =~= keys_of(
                t.filter(is_fresh(a)),
            ).push(e.0));
            assert(keys_of(m).push(e.0) =~= keys_of(a) + keys_of(t.filter(is_fresh(a))).push(
                e.0,
            ));
        }
    }
}

/// The diff of an object against itself is empty.
pub proof fn lemma_plain_diff_of_same_is_empty<K, X>(x: Seq<(K, X)>)
    requires
        distinct_keys(x),
    ensures
        x.filter(differs_from(x)) == Seq::<(K, X)>::empty(),
{
    assert forall|i: int| 0 <= i < x.len() implies !differs_from(x)(#[trigger] x[i]) by {
        lemma_first_value_is_lookup(x, x[i].0);
        lemma_lookup_at(x, i);
    }
    lemma_filter_none(x, differs_from(x));
}

/// The shallow diff of a map against itself is empty.
pub proof fn lemma_shallow_diff_of_same_is_empty(x: Seq<(Seq<char>, crate::byml::BymlView)>)
    requires
        distinct_keys(x),
    ensures
        crate::util::shallow_diff(x, x) == Seq::<(Seq<char>, crate::byml::BymlView)>::empty(),
{
    lemma_plain_diff_of_same_is_empty(x);
    assert forall|i: int| 0 <= i < x.len() implies !crate::util::is_missing_from(x)(
        #[trigger] x[i],
    ) by {
        lemma_first_value_is_lookup(x, x[i].0);
        lemma_lookup_at(x, i);
    }
    lemma_filter_none(x, crate::util::is_missing_from(x));
    let all = x.filter(differs_from(x)) + x.filter(crate::util::is_missing_from(x)).map_values(
        crate::util::nulled(),
    );
    assert(all =~= Seq::empty());
}

/// A test on the pairs that goes by the key alone may be made on the keys.
pub proof fn lemma_filter_by_key<K, X>(
    s: Seq<(K, X)>,
    p: spec_fn((K, X)) -> bool,
    q: spec_fn(K) -> bool,
)
    requires
        forall|i: int| 0 <= i < s.len() ==> p(#[trigger] s[i]) == q(s[i].0),
    ensures
        keys_of(s.filter(p)) == keys_of(s).filter(q),
    decreases s.len(),
{
    reveal(Seq::filter);
    if s.len() > 0 {
        let t = s.drop_last();
        let e = s.last();
        lemma_filter_by_key(t, p, q);
        assert(keys_of(s).drop_last() =~= keys_of(t));
        assert(keys_of(s).last() == e.0);
        assert(p(e) == q(e.0));
        if p(e) {
            assert(keys_of(t.filter(p).push(e)) =~= keys_of(t.filter(p)).push(e.0));
        }
    } else {
        assert(keys_of(s.filter(p)) =~= Seq::empty());
        assert(keys_of(s).filter(q) =~= Seq::empty());
    }
}

/// The diff/merge identity for shallow diffs: for maps without a key twice,
/// where every null of `other` stands in `base` too, and `other` lists the
/// keys that it shares with `base` first and in the order of `base`,
/// merging the shallow diff from `base` to `other` onto `base` gives
/// `other`: a key that `other` has removed is gone.
pub proof fn lemma_shallow_merge_of_diff_is_other(
    base: Seq<(Seq<char>, crate::byml::BymlView)>,
    other: Seq<(Seq<char>, crate::byml::BymlView)>,
)
    requires
        distinct_keys(base),
        distinct_keys(other),
        forall|i: int|
            0 <= i < other.len() && (#[trigger] other[i]).1 is Null ==> lookup(base, other[i].0)
                == Some(other[i].1),
        follows(base, other),
    ensures
        crate::util::shallow_merge(
            base,
            crate::byml::BymlView::Hash(crate::util::shallow_diff(base, other)),
        ) == other,
{
    let differs = differs_from(base);
    let missing = crate::util::is_missing_from(other);
    let news = other.filter(differs);
    let gone = base.filter(missing);
    let nulls = gone.map_values(crate::util::nulled());
    let d = news + nulls;
    let left = crate::util::is_left_by(d);
    lemma_filter_keys(other, differs);
    lemma_filter_keys(base, missing);
    lemma_map_keys(gone, crate::util::nulled());
    assert forall|k: Seq<char>| true implies (#[trigger] has_key(nulls, k) <==> (has_key(base, k)
        && !has_key(other, k))) by {
        lemma_first_value_is_lookup(other, k);
        assert(lookup(gone, k) is Some <==> has_key(gone, k));
    }
    assert forall|k: Seq<char>| true implies (#[trigger] has_key(news, k) ==> has_key(other, k)) by {
        assert(lookup(news, k) is Some <==> has_key(news, k));
    }
    lemma_concat_keys(news, nulls);
    lemma_indexed_of_distinct(d);
    lemma_indexed_concat(base, d);
    let x = indexed(base + d);
    let m = x.filter(left);
    lemma_filter_keys(x, left);
    assert forall|k: Seq<char>| true implies #[trigger] lookup(x, k) == (if has_key(other, k) {
        lookup(other, k)
    } else if has_key(base, k) {
        Some(crate::byml::BymlView::Null)
    } else {
        None
    }) by {
        lemma_first_value_is_lookup(base, k);
        lemma_first_value_is_lookup(other, k);
        assert(lookup(news, k) is Some <==> has_key(news, k));
        assert(lookup(gone, k) is Some <==> has_key(gone, k));
        assert(lookup(nulls, k) is Some <==> has_key(nulls, k));
        assert(lookup(d, k) is Some <==> has_key(d, k));
    }
    // a key of `other` is left, a key that only `base` has is removed
    assert forall|k: Seq<char>, v: crate::byml::BymlView|
        lookup(x, k) == Some(v) implies #[trigger] left((k, v)) == has_key(other, k) by {
        lemma_first_value_is_lookup(d, k);
        lemma_first_value_is_lookup(base, k);
        lemma_first_value_is_lookup(other, k);
        assert(lookup(news, k) is Some <==> has_key(news, k));
        assert(lookup(d, k) is Some <==> has_key(d, k));
        assert(lookup(x, k) == (if has_key(other, k) {
            lookup(other, k)
        } else if has_key(base, k) {
            Some(crate::byml::BymlView::Null)
        } else {
            None
        }));
        if has_key(other, k) && v is Null {
            let i = position_of(other, k);
            lemma_lookup_at(other, i);
            assert(!differs((k, v)));
        }
    }
    assert forall|k: Seq<char>| lookup(m, k) == lookup(other, k) by {
        assert(lookup(x, k) == (if has_key(other, k) {
            lookup(other, k)
        } else if has_key(base, k) {
            Some(crate::byml::BymlView::Null)
        } else {
            None
        }));
        if lookup(x, k) is Some {
            assert(left((k, lookup(x, k).unwrap())) == has_key(other, k));
        }
    }
    let held = |k: Seq<char>| has_key(other, k);
    assert forall|i: int| 0 <= i < x.len() implies left(#[trigger] x[i]) == held(x[i].0) by {
        lemma_lookup_at(x, i);
        assert(left((x[i].0, x[i].1)) == has_key(other, x[i].0));
    }
    lemma_filter_by_key(x, left, held);
    lemma_filter_by_key(base, is_held_by(other), held);
    let fresh = d.filter(is_fresh(base));
    assert(fresh == other.filter(is_fresh(base))) by {
        Seq::filter_distributes_over_add(news, nulls, is_fresh(base));
        assert forall|i: int| 0 <= i < nulls.len() implies !is_fresh(base)(#[trigger] nulls[i]) by {
            lemma_lookup_at(nulls, i);
        }
        lemma_filter_none(nulls, is_fresh(base));
        lemma_filter_twice(other, differs, is_fresh(base));
        assert forall|i: int| 0 <= i < other.len() implies (differs(#[trigger] other[i])
            && is_fresh(base)(other[i])) == is_fresh(base)(other[i]) by {
            if is_fresh(base)(other[i]) {
                lemma_first_value_none(base, other[i].0);
            }
        }
        lemma_filter_agree(
            other,
            |e: (Seq<char>, crate::byml::BymlView)| differs(e) && is_fresh(base)(e),
            is_fresh(base),
        );
        assert(news.filter(is_fresh(base)) + Seq::empty() =~= news.filter(is_fresh(base)));
    }
    Seq::filter_distributes_over_add(keys_of(base), keys_of(fresh), held);
    assert forall|i: int| 0 <= i < keys_of(fresh).len() implies held(#[trigger] keys_of(fresh)[i]) by {
        lemma_filter_from(other, is_fresh(base));
        let e = fresh[i];
        assert(other.contains(e));
        let j = choose|j: int| 0 <= j < other.len() && other[j] == e;
        lemma_lookup_at(other, j);
    }
    lemma_filter_all(keys_of(fresh), held);
    assert(keys_of(m) == keys_of(other));
    lemma_same_keys_same_values(m, other);
}

/// A shallow merge of an empty diff changes nothing, where `base` has no
/// key twice.
pub proof fn lemma_shallow_merge_of_nothing(base: Seq<(Seq<char>, crate::byml::BymlView)>)
    requires
        distinct_keys(base),
    ensures
        crate::util::shallow_merge(base, crate::byml::BymlView::Hash(Seq::empty())) == base,
{
    let none = Seq::<(Seq<char>, crate::byml::BymlView)>::empty();
    assert(base + none =~= base);
    lemma_indexed_of_distinct(base);
    assert forall|i: int| 0 <= i < base.len() implies crate::util::is_left_by(none)(
        #[trigger] base[i],
    ) by {
        lemma_first_value_none(none, base[i].0);
    }
    lemma_filter_all(base, crate::util::is_left_by(none));
}

} // verus!
