//! Association sequences whose keys ascend: what the sort-order containers
//! hold, and what diff and merge mean on them.

use crate::assoc::{
    distinct_keys, has_key, lemma_concat_keys, lemma_filter_from, lemma_filter_keys,
    lemma_lookup_at, lemma_map_keys, lemma_push_keys, lookup, position_of,
};
use crate::datum::OrdKey;
use crate::util::delta::{
    delete_diff, delete_merge, diff_at, is_added, is_changed, is_kept, is_live, is_removed,
    lemma_diff_keys, lemma_merge_keys, lemma_merge_of_diff_holds_other, merge_at, overwritten,
    tombstone,
};
use vstd::prelude::*;

verus! {

/// The keys of `s` strictly ascend.
pub open spec fn ascending<K: OrdKey, X>(s: Seq<(K::V, X)>) -> bool {
    forall|i: int, j: int|
        0 <= i < j < s.len() ==> K::before((#[trigger] s[i]).0, (#[trigger] s[j]).0)
}

/// Two ascending sequences merged into one.
pub open spec fn sorted_union<K: OrdKey, X>(a: Seq<(K::V, X)>, b: Seq<(K::V, X)>) -> Seq<
    (K::V, X),
>
    decreases a.len() + b.len(),
{
    if a.len() == 0 {
        b
    } else if b.len() == 0 {
        a
    } else if K::before(a[0].0, b[0].0) {
        seq![a[0]] + sorted_union::<K, X>(a.skip(1), b)
    } else {
        seq![b[0]] + sorted_union::<K, X>(a, b.skip(1))
    }
}

/// The diff from `base` to `other` with its keys in order.
pub open spec fn sorted_diff<K: OrdKey, V>(
    base: Seq<(K::V, Option<V>)>,
    other: Seq<(K::V, Option<V>)>,
) -> Seq<(K::V, Option<V>)> {
    sorted_union::<K, Option<V>>(
        other.filter(is_changed(base)),
        base.filter(is_removed(other)).map_values(tombstone()),
    )
}

/// `diff` applied to `base` with its keys in order.
pub open spec fn sorted_merge<K: OrdKey, V>(
    base: Seq<(K::V, Option<V>)>,
    diff: Seq<(K::V, Option<V>)>,
) -> Seq<(K::V, Option<V>)> {
    sorted_union::<K, Option<V>>(
        base.filter(is_kept(diff)).map_values(overwritten(diff)),
        diff.filter(is_added(base)),
    )
}

/// Ascending keys are distinct.
pub proof fn lemma_ascending_distinct<K: OrdKey, X>(s: Seq<(K::V, X)>)
    requires
        ascending::<K, X>(s),
    ensures
        distinct_keys(s),
{
    assert forall|i: int, j: int| 0 <= i < j < s.len() implies (#[trigger] s[i]).0 != (
    #[trigger] s[j]).0 by {
        K::before_irreflexive(s[i].0);
    }
}

/// The union of two ascending sequences with no key in common ascends, and
/// holds what the two hold.
#[verifier::rlimit(40)]
pub proof fn lemma_sorted_union<K: OrdKey, X>(a: Seq<(K::V, X)>, b: Seq<(K::V, X)>)
    requires
        ascending::<K, X>(a),
        ascending::<K, X>(b),
        forall|k: K::V| !(has_key(a, k) && has_key(b, k)),
    ensures
        ascending::<K, X>(sorted_union::<K, X>(a, b)),
        sorted_union::<K, X>(a, b).len() == a.len() + b.len(),
        forall|i: int|
            0 <= i < sorted_union::<K, X>(a, b).len() ==> a.contains(
                #[trigger] sorted_union::<K, X>(a, b)[i],
            ) || b.contains(sorted_union::<K, X>(a, b)[i]),
        forall|k: K::V|
            has_key(sorted_union::<K, X>(a, b), k) <==> (has_key(a, k) || has_key(b, k)),
        forall|k: K::V| #[trigger]
            lookup(sorted_union::<K, X>(a, b), k) == lookup(a + b, k),
    decreases a.len() + b.len(),
{
    let u = sorted_union::<K, X>(a, b);
    lemma_ascending_distinct::<K, X>(a);
    lemma_ascending_distinct::<K, X>(b);
    lemma_concat_keys(a, b);
    if a.len() == 0 {
        assert(a + b =~= b);
        assert forall|i: int| 0 <= i < u.len() implies a.contains(#[trigger] u[i]) || b.contains(
            u[i],
        ) by {
            assert(b[i] == u[i]);
        }
    } else if b.len() == 0 {
        assert(a + b =~= a);
        assert forall|i: int| 0 <= i < u.len() implies a.contains(#[trigger] u[i]) || b.contains(
            u[i],
        ) by {
            assert(a[i] == u[i]);
        }
    } else {
        let first_a = K::before(a[0].0, b[0].0);
        let h = if first_a {
            a[0]
        } else {
            b[0]
        };
        let ra = if first_a {
            a.skip(1)
        } else {
            a
        };
        let rb = if first_a {
            b
        } else {
            b.skip(1)
        };
        let rest = sorted_union::<K, X>(ra, rb);
        assert(u == seq![h] + rest);
        assert(ascending::<K, X>(ra) && ascending::<K, X>(rb)) by {
            assert forall|i: int, j: int| 0 <= i < j < ra.len() implies K::before(
                (#[trigger] ra[i]).0,
                (#[trigger] ra[j]).0,
            ) by {
                if first_a {
                    assert(K::before(a[i + 1].0, a[j + 1].0));
                }
            }
            assert forall|i: int, j: int| 0 <= i < j < rb.len() implies K::before(
                (#[trigger] rb[i]).0,
                (#[trigger] rb[j]).0,
            ) by {
                if !first_a {
                    assert(K::before(b[i + 1].0, b[j + 1].0));
                }
            }
        }
        assert forall|k: K::V| has_key(ra, k) implies has_key(a, k) by {
            {
                let i = position_of(ra, k);
                if first_a {
                    assert(a[i + 1].0 == k);
                }
            }
        }
        assert forall|k: K::V| has_key(rb, k) implies has_key(b, k) by {
            {
                let i = position_of(rb, k);
                if !first_a {
                    assert(b[i + 1].0 == k);
                }
            }
        }
        lemma_sorted_union::<K, X>(ra, rb);
        // the head comes before everything that is left
        assert(a[0].0 == a[0].0 && b[0].0 == b[0].0);
        assert(has_key(a, a[0].0) && has_key(b, b[0].0));
        K::before_total(a[0].0, b[0].0);
        assert forall|i: int| 0 <= i < rest.len() implies K::before(h.0, (#[trigger] rest[i]).0) by {
            let e = rest[i];
            if ra.contains(e) {
                let t = choose|t: int| 0 <= t < ra.len() && ra[t] == e;
                if first_a {
                    assert(K::before(a[0].0, a[t + 1].0));
                } else {
                    if t > 0 {
                        assert(K::before(a[0].0, a[t].0));
                        K::before_transitive(b[0].0, a[0].0, a[t].0);
                    }
                }
            } else {
                let t = choose|t: int| 0 <= t < rb.len() && rb[t] == e;
                if first_a {
                    if t > 0 {
                        assert(K::before(b[0].0, b[t].0));
                        K::before_transitive(a[0].0, b[0].0, b[t].0);
                    }
                } else {
                    assert(K::before(b[0].0, b[t + 1].0));
                }
            }
        }
        assert forall|i: int, j: int| 0 <= i < j < u.len() implies K::before(
            (#[trigger] u[i]).0,
            (#[trigger] u[j]).0,
        ) by {
            if i == 0 {
                assert(u[j] == rest[j - 1]);
            } else {
                assert(u[i] == rest[i - 1]);
                assert(u[j] == rest[j - 1]);
            }
        }
        assert forall|i: int| 0 <= i < u.len() implies a.contains(#[trigger] u[i]) || b.contains(
            u[i],
        ) by {
            if i == 0 {
                assert(a[0] == a[0] && b[0] == b[0]);
            } else {
                let e = rest[i - 1];
                assert(u[i] == e);
                if ra.contains(e) {
                    let t = choose|t: int| 0 <= t < ra.len() && ra[t] == e;
                    if first_a {
                        assert(a[t + 1] == e);
                    }
                } else {
                    let t = choose|t: int| 0 <= t < rb.len() && rb[t] == e;
                    if !first_a {
                        assert(b[t + 1] == e);
                    }
                }
            }
        }
        assert forall|k: K::V| has_key(u, k) <==> (has_key(a, k) || has_key(b, k)) by {
            if has_key(u, k) {
                let i = position_of(u, k);
                if a.contains(u[i]) {
                    let t = choose|t: int| 0 <= t < a.len() && a[t] == u[i];
                    assert(a[t].0 == k);
                } else {
                    let t = choose|t: int| 0 <= t < b.len() && b[t] == u[i];
                    assert(b[t].0 == k);
                }
            }
            if has_key(a, k) {
                let t = position_of(a, k);
                if first_a && t == 0 {
                    assert(u[0].0 == k);
                } else {
                    if first_a {
                        assert(ra[t - 1].0 == k);
                    }
                    assert(has_key(ra, k));
                    let i = position_of(rest, k);
                    assert(u[i + 1].0 == k);
                }
            }
            if has_key(b, k) {
                let t = position_of(b, k);
                if !first_a && t == 0 {
                    assert(u[0].0 == k);
                } else {
                    if !first_a {
                        assert(rb[t - 1].0 == k);
                    }
                    assert(has_key(rb, k));
                    let i = position_of(rest, k);
                    assert(u[i + 1].0 == k);
                }
            }
        }
        lemma_ascending_distinct::<K, X>(u);
        assert forall|k: K::V| #[trigger] lookup(u, k) == lookup(a + b, k) by {
            if has_key(u, k) {
                let i = position_of(u, k);
                lemma_lookup_at(u, i);
                if a.contains(u[i]) {
                    let t = choose|t: int| 0 <= t < a.len() && a[t] == u[i];
                    lemma_lookup_at(a, t);
                } else {
                    let t = choose|t: int| 0 <= t < b.len() && b[t] == u[i];
                    lemma_lookup_at(b, t);
                    assert(has_key(b, k));
                }
            }
        }
    }
}

/// Two ascending sequences that hold the same value under every key are the
/// same sequence.
pub proof fn lemma_ascending_same<K: OrdKey, X>(a: Seq<(K::V, X)>, b: Seq<(K::V, X)>)
    requires
        ascending::<K, X>(a),
        ascending::<K, X>(b),
        forall|k: K::V| lookup(a, k) == lookup(b, k),
    ensures
        a == b,
    decreases a.len(),
{
    lemma_ascending_distinct::<K, X>(a);
    lemma_ascending_distinct::<K, X>(b);
    if a.len() == 0 {
        if b.len() > 0 {
            lemma_lookup_at(b, 0);
            assert(lookup(a, b[0].0) == lookup(b, b[0].0));
        }
        assert(a =~= b);
    } else if b.len() == 0 {
        lemma_lookup_at(a, 0);
        assert(lookup(a, a[0].0) == lookup(b, a[0].0));
    } else {
        let la = a.len() - 1;
        let lb = b.len() - 1;
        let x = a[la].0;
        let y = b[lb].0;
        lemma_lookup_at(a, la);
        lemma_lookup_at(b, lb);
        assert(lookup(b, x) == lookup(a, x));
        assert(lookup(a, y) == lookup(b, y));
        let p = position_of(b, x);
        let q = position_of(a, y);
        if p < lb {
            assert(K::before(b[p].0, b[lb].0));
            if q < la {
                assert(K::before(a[q].0, a[la].0));
                K::before_transitive(x, y, x);
            }
            K::before_irreflexive(x);
        }
        assert(x == y);
        let ta = a.drop_last();
        let tb = b.drop_last();
        assert(a =~= ta.push(a[la]));
        assert(b =~= tb.push(b[lb]));
        assert(ascending::<K, X>(ta)) by {
            assert forall|i: int, j: int| 0 <= i < j < ta.len() implies K::before(
                (#[trigger] ta[i]).0,
                (#[trigger] ta[j]).0,
            ) by {
                assert(K::before(a[i].0, a[j].0));
            }
        }
        assert(ascending::<K, X>(tb)) by {
            assert forall|i: int, j: int| 0 <= i < j < tb.len() implies K::before(
                (#[trigger] tb[i]).0,
                (#[trigger] tb[j]).0,
            ) by {
                assert(K::before(b[i].0, b[j].0));
            }
        }
        lemma_ascending_distinct::<K, X>(ta);
        lemma_ascending_distinct::<K, X>(tb);
        assert(!has_key(ta, x)) by {
            if has_key(ta, x) {
                let i = position_of(ta, x);
                assert(a[i].0 != a[la].0);
            }
        }
        assert(!has_key(tb, x)) by {
            if has_key(tb, x) {
                let i = position_of(tb, x);
                assert(b[i].0 != b[lb].0);
            }
        }
        lemma_push_keys(ta, a[la]);
        lemma_push_keys(tb, b[lb]);
        assert forall|k: K::V| lookup(ta, k) == lookup(tb, k) by {
            assert(lookup(a, k) == lookup(b, k));
            assert(lookup(ta.push(a[la]), k) == lookup(a, k));
            assert(lookup(tb.push(b[lb]), k) == lookup(b, k));
        }
        lemma_ascending_same::<K, X>(ta, tb);
    }
}

/// Keeping some entries of an ascending sequence leaves it ascending.
pub proof fn lemma_filter_ascending<K: OrdKey, X>(s: Seq<(K::V, X)>, p: spec_fn((K::V, X)) -> bool)
    requires
        ascending::<K, X>(s),
    ensures
        ascending::<K, X>(s.filter(p)),
    decreases s.len(),
{
    reveal(Seq::filter);
    if s.len() > 0 {
        let t = s.drop_last();
        assert(ascending::<K, X>(t)) by {
            assert forall|i: int, j: int| 0 <= i < j < t.len() implies K::before(
                (#[trigger] t[i]).0,
                (#[trigger] t[j]).0,
            ) by {
                assert(K::before(s[i].0, s[j].0));
            }
        }
        lemma_filter_ascending::<K, X>(t, p);
        lemma_filter_from(t, p);
        let f = s.filter(p);
        let ft = t.filter(p);
        assert forall|i: int, j: int| 0 <= i < j < f.len() implies K::before(
            (#[trigger] f[i]).0,
            (#[trigger] f[j]).0,
        ) by {
            if j < ft.len() {
                assert(K::before(ft[i].0, ft[j].0));
            } else {
                assert(t.contains(ft[i]));
                let x = choose|x: int| 0 <= x < t.len() && t[x] == ft[i];
                assert(K::before(s[x].0, s[s.len() - 1].0));
            }
        }
    }
}

/// A change of the values that keeps each key leaves an ascending sequence
/// ascending.
pub proof fn lemma_map_ascending<K: OrdKey, X, Y>(
    s: Seq<(K::V, X)>,
    f: spec_fn((K::V, X)) -> (K::V, Y),
)
    requires
        ascending::<K, X>(s),
        forall|e: (K::V, X)| (#[trigger] f(e)).0 == e.0,
    ensures
        ascending::<K, Y>(s.map_values(f)),
{
    let m = s.map_values(f);
    assert forall|i: int, j: int| 0 <= i < j < m.len() implies K::before(
        (#[trigger] m[i]).0,
        (#[trigger] m[j]).0,
    ) by {
        assert(f(s[i]).0 == s[i].0);
        assert(f(s[j]).0 == s[j].0);
        assert(K::before(s[i].0, s[j].0));
    }
}

/// A sorted diff ascends and holds under each key what `diff_at` says.
pub proof fn lemma_sorted_diff<K: OrdKey, V>(
    base: Seq<(K::V, Option<V>)>,
    other: Seq<(K::V, Option<V>)>,
)
    requires
        ascending::<K, Option<V>>(base),
        ascending::<K, Option<V>>(other),
    ensures
        ascending::<K, Option<V>>(sorted_diff::<K, V>(base, other)),
        forall|k: K::V| #[trigger]
            lookup(sorted_diff::<K, V>(base, other), k) == diff_at(base, other, k),
{
    lemma_ascending_distinct::<K, Option<V>>(base);
    lemma_ascending_distinct::<K, Option<V>>(other);
    let c = other.filter(is_changed(base));
    let r0 = base.filter(is_removed(other));
    let r = r0.map_values(tombstone());
    lemma_filter_ascending::<K, Option<V>>(other, is_changed(base));
    lemma_filter_ascending::<K, Option<V>>(base, is_removed(other));
    lemma_map_ascending::<K, Option<V>, Option<V>>(r0, tombstone());
    lemma_filter_keys(other, is_changed(base));
    lemma_filter_keys(base, is_removed(other));
    lemma_map_keys(r0, tombstone());
    assert forall|k: K::V| !(has_key(c, k) && has_key(r, k)) by {
        assert(lookup(c, k) is Some <==> has_key(c, k));
        assert(lookup(r, k) is Some <==> has_key(r, k));
    }
    lemma_sorted_union::<K, Option<V>>(c, r);
    lemma_diff_keys(base, other);
    assert forall|k: K::V| #[trigger]
        lookup(sorted_diff::<K, V>(base, other), k) == diff_at(base, other, k) by {
        assert(lookup(c + r, k) == lookup(delete_diff(base, other), k));
    }
}

/// A sorted merge ascends, holds no tombstone, and holds under each key what
/// `merge_at` says.
pub proof fn lemma_sorted_merge<K: OrdKey, V>(
    base: Seq<(K::V, Option<V>)>,
    diff: Seq<(K::V, Option<V>)>,
)
    requires
        ascending::<K, Option<V>>(base),
        ascending::<K, Option<V>>(diff),
    ensures
        ascending::<K, Option<V>>(sorted_merge::<K, V>(base, diff)),
        is_live(sorted_merge::<K, V>(base, diff)),
        forall|k: K::V| #[trigger]
            lookup(sorted_merge::<K, V>(base, diff), k) == merge_at(base, diff, k),
{
    lemma_ascending_distinct::<K, Option<V>>(base);
    lemma_ascending_distinct::<K, Option<V>>(diff);
    let k0 = base.filter(is_kept(diff));
    let kept = k0.map_values(overwritten(diff));
    let added = diff.filter(is_added(base));
    lemma_filter_ascending::<K, Option<V>>(base, is_kept(diff));
    lemma_filter_ascending::<K, Option<V>>(diff, is_added(base));
    lemma_map_ascending::<K, Option<V>, Option<V>>(k0, overwritten(diff));
    lemma_filter_keys(base, is_kept(diff));
    lemma_filter_keys(diff, is_added(base));
    lemma_map_keys(k0, overwritten(diff));
    assert forall|k: K::V| !(has_key(kept, k) && has_key(added, k)) by {
        assert(lookup(kept, k) is Some <==> has_key(kept, k));
        assert(lookup(added, k) is Some <==> has_key(added, k));
    }
    lemma_sorted_union::<K, Option<V>>(kept, added);
    lemma_merge_keys(base, diff);
    let m = sorted_merge::<K, V>(base, diff);
    let dm = delete_merge(base, diff);
    assert forall|k: K::V| #[trigger] lookup(m, k) == merge_at(base, diff, k) by {
        assert(lookup(kept + added, k) == lookup(dm, k));
    }
    assert forall|i: int| 0 <= i < m.len() implies (#[trigger] m[i]).1 is Some by {
        if kept.contains(m[i]) {
            let t = choose|t: int| 0 <= t < kept.len() && kept[t] == m[i];
            assert(dm[t] == kept[t]);
        } else {
            let t = choose|t: int| 0 <= t < added.len() && added[t] == m[i];
            assert(dm[kept.len() + t] == added[t]);
        }
    }
}

/// The diff of a sorted value against itself is empty.
pub proof fn lemma_sorted_diff_of_same_is_empty<K: OrdKey, V>(x: Seq<(K::V, Option<V>)>)
    requires
        ascending::<K, Option<V>>(x),
    ensures
        sorted_diff::<K, V>(x, x) == Seq::<(K::V, Option<V>)>::empty(),
{
    lemma_ascending_distinct::<K, Option<V>>(x);
    crate::util::delta::lemma_diff_of_same_is_empty(x);
    let c = x.filter(is_changed(x));
    let r = x.filter(is_removed(x)).map_values(tombstone());
    assert((c + r).len() == 0);
    assert(c =~= Seq::<(K::V, Option<V>)>::empty());
    assert(r =~= Seq::<(K::V, Option<V>)>::empty());
}

/// The diff/merge identity in the sort-order shape: merging the diff from
/// `base` to `other` onto `base` gives `other`.
pub proof fn lemma_sorted_merge_of_diff_is_other<K: OrdKey, V>(
    base: Seq<(K::V, Option<V>)>,
    other: Seq<(K::V, Option<V>)>,
)
    requires
        ascending::<K, Option<V>>(base),
        ascending::<K, Option<V>>(other),
        is_live(other),
    ensures
        sorted_merge::<K, V>(base, sorted_diff::<K, V>(base, other)) == other,
{
    lemma_ascending_distinct::<K, Option<V>>(base);
    lemma_ascending_distinct::<K, Option<V>>(other);
    let d = sorted_diff::<K, V>(base, other);
    let dd = delete_diff(base, other);
    lemma_sorted_diff::<K, V>(base, other);
    lemma_sorted_merge::<K, V>(base, d);
    lemma_diff_keys(base, other);
    lemma_merge_keys(base, dd);
    lemma_merge_of_diff_holds_other(base, other);
    let m = sorted_merge::<K, V>(base, d);
    assert forall|k: K::V| lookup(m, k) == lookup(other, k) by {
        assert(lookup(d, k) == lookup(dd, k));
        assert(lookup(m, k) == merge_at(base, d, k));
        assert(lookup(delete_merge(base, dd), k) == merge_at(base, dd, k));
        assert(lookup(delete_merge(base, dd), k) == lookup(other, k));
    }
    lemma_ascending_same::<K, Option<V>>(m, other);
}


/// The test for an entry whose key comes before `k`.
pub open spec fn comes_before<K: OrdKey, X>(k: K::V) -> spec_fn((K::V, X)) -> bool {
    |e: (K::V, X)| K::before(e.0, k)
}

/// The test for an entry whose key comes after `k`.
pub open spec fn comes_after<K: OrdKey, X>(k: K::V) -> spec_fn((K::V, X)) -> bool {
    |e: (K::V, X)| K::before(k, e.0)
}

/// `s` with `x` under `k`, at the place that the order gives the key.
pub open spec fn sorted_insert<K: OrdKey, X>(s: Seq<(K::V, X)>, k: K::V, x: X) -> Seq<(K::V, X)> {
    s.filter(comes_before::<K, X>(k)) + seq![(k, x)] + s.filter(comes_after::<K, X>(k))
}

/// The entries that inserting `pairs` one by one leaves.
pub open spec fn sorted_collected<K: OrdKey, V>(pairs: Seq<(K::V, V)>) -> Seq<(K::V, Option<V>)>
    decreases pairs.len(),
{
    if pairs.len() == 0 {
        Seq::empty()
    } else {
        sorted_insert::<K, Option<V>>(
            sorted_collected::<K, V>(pairs.drop_last()),
            pairs.last().0,
            Some(pairs.last().1),
        )
    }
}

/// A test that holds in front of `n` and nowhere from `n` on keeps what is
/// in front of `n`.
pub proof fn lemma_filter_prefix<A>(s: Seq<A>, p: spec_fn(A) -> bool, n: int)
    requires
        0 <= n <= s.len(),
        forall|j: int| 0 <= j < n ==> p(#[trigger] s[j]),
        forall|j: int| n <= j < s.len() ==> !p(#[trigger] s[j]),
    ensures
        s.filter(p) == s.take(n),
{
    let a = s.take(n);
    let b = s.skip(n);
    assert(s =~= a + b);
    assert forall|j: int| 0 <= j < a.len() implies p(#[trigger] a[j]) by {
        assert(a[j] == s[j]);
    }
    assert forall|j: int| 0 <= j < b.len() implies !p(#[trigger] b[j]) by {
        assert(b[j] == s[j + n]);
    }
    crate::assoc::lemma_filter_all(a, p);
    crate::assoc::lemma_filter_none(b, p);
    Seq::filter_distributes_over_add(a, b, p);
    assert(a + Seq::<A>::empty() =~= a);
}

/// A test that holds nowhere in front of `n` and everywhere from `n` on
/// keeps what stands from `n` on.
pub proof fn lemma_filter_suffix<A>(s: Seq<A>, p: spec_fn(A) -> bool, n: int)
    requires
        0 <= n <= s.len(),
        forall|j: int| 0 <= j < n ==> !p(#[trigger] s[j]),
        forall|j: int| n <= j < s.len() ==> p(#[trigger] s[j]),
    ensures
        s.filter(p) == s.skip(n),
{
    let a = s.take(n);
    let b = s.skip(n);
    assert(s =~= a + b);
    assert forall|j: int| 0 <= j < a.len() implies !p(#[trigger] a[j]) by {
        assert(a[j] == s[j]);
    }
    assert forall|j: int| 0 <= j < b.len() implies p(#[trigger] b[j]) by {
        assert(b[j] == s[j + n]);
    }
    crate::assoc::lemma_filter_none(a, p);
    crate::assoc::lemma_filter_all(b, p);
    Seq::filter_distributes_over_add(a, b, p);
    assert(Seq::<A>::empty() + b =~= b);
}

/// In an ascending sequence, the entries before `k` are those in front of
/// the place `p` where the keys stop coming before `k`, and the entries
/// after `k` are those behind it, but for the entry of `k` itself.
pub proof fn lemma_split_at<K: OrdKey, X>(s: Seq<(K::V, X)>, k: K::V, p: int)
    requires
        ascending::<K, X>(s),
        0 <= p <= s.len(),
        forall|j: int| 0 <= j < p ==> K::before((#[trigger] s[j]).0, k),
        forall|j: int| p <= j < s.len() ==> !K::before((#[trigger] s[j]).0, k),
    ensures
        s.filter(comes_before::<K, X>(k)) == s.take(p),
        s.filter(comes_after::<K, X>(k)) == if p < s.len() && s[p].0 == k {
            s.skip(p + 1)
        } else {
            s.skip(p)
        },
        p < s.len() && s[p].0 == k || !has_key(s, k),
{
    let below = comes_before::<K, X>(k);
    let above = comes_after::<K, X>(k);
    let found = p < s.len() && s[p].0 == k;
    let q = if found {
        p + 1
    } else {
        p
    };
    K::before_irreflexive(k);
    assert forall|j: int| 0 <= j < p implies below(#[trigger] s[j]) by {
        assert(K::before(s[j].0, k));
    }
    assert forall|j: int| p <= j < s.len() implies !below(#[trigger] s[j]) by {
        assert(!K::before(s[j].0, k));
    }
    lemma_filter_prefix(s, below, p);
    assert forall|j: int| 0 <= j < q implies !above(#[trigger] s[j]) by {
        if j < p {
            assert(K::before(s[j].0, k));
            if K::before(k, s[j].0) {
                K::before_transitive(k, s[j].0, k);
            }
        }
    }
    assert forall|j: int| q <= j < s.len() implies above(#[trigger] s[j]) by {
        assert(!K::before(s[j].0, k));
        K::before_total(s[j].0, k);
        if s[j].0 == k {
            assert(K::before(s[p].0, s[j].0));
            assert(!K::before(s[p].0, k));
        }
    }
    lemma_filter_suffix(s, above, q);
    if !found && has_key(s, k) {
        let i = position_of(s, k);
        if i < p {
            assert(K::before(s[i].0, k));
        } else if i > p {
            assert(K::before(s[p].0, s[i].0));
            assert(!K::before(s[p].0, k));
        }
    }
}

/// Inserting into an ascending sequence leaves it ascending, with the new
/// value under the key and every other key as it was.
pub proof fn lemma_sorted_insert<K: OrdKey, X>(s: Seq<(K::V, X)>, k: K::V, x: X)
    requires
        ascending::<K, X>(s),
    ensures
        ascending::<K, X>(sorted_insert::<K, X>(s, k, x)),
        forall|q: K::V| has_key(sorted_insert::<K, X>(s, k, x), q) <==> (q == k || has_key(s, q)),
        forall|q: K::V| #[trigger]
            lookup(sorted_insert::<K, X>(s, k, x), q) == if q == k {
                Some(x)
            } else {
                lookup(s, q)
            },
{
    let below = s.filter(comes_before::<K, X>(k));
    let above = s.filter(comes_after::<K, X>(k));
    let mid = seq![(k, x)];
    let t = sorted_insert::<K, X>(s, k, x);
    lemma_filter_ascending::<K, X>(s, comes_before::<K, X>(k));
    lemma_filter_ascending::<K, X>(s, comes_after::<K, X>(k));
    lemma_filter_from(s, comes_before::<K, X>(k));
    lemma_filter_from(s, comes_after::<K, X>(k));
    lemma_ascending_distinct::<K, X>(s);
    lemma_filter_keys(s, comes_before::<K, X>(k));
    lemma_filter_keys(s, comes_after::<K, X>(k));
    K::before_irreflexive(k);
    assert forall|i: int, j: int| 0 <= i < j < t.len() implies K::before(
        (#[trigger] t[i]).0,
        (#[trigger] t[j]).0,
    ) by {
        let n = below.len() as int;
        if j < n {
            assert(K::before(below[i].0, below[j].0));
        } else if j == n {
            assert(comes_before::<K, X>(k)(below[i]));
        } else {
            assert(comes_after::<K, X>(k)(above[j - n - 1]));
            if i < n {
                assert(comes_before::<K, X>(k)(below[i]));
                K::before_transitive(below[i].0, k, above[j - n - 1].0);
            } else if i > n {
                assert(K::before(above[i - n - 1].0, above[j - n - 1].0));
            }
        }
    }
    lemma_ascending_distinct::<K, X>(t);
    assert forall|q: K::V| has_key(t, q) <==> (q == k || has_key(s, q)) by {
        let n = below.len() as int;
        if has_key(t, q) {
            let i = position_of(t, q);
            if i < n {
                assert(s.contains(below[i]));
                let j = choose|j: int| 0 <= j < s.len() && s[j] == below[i];
                assert(s[j].0 == q);
            } else if i > n {
                assert(s.contains(above[i - n - 1]));
                let j = choose|j: int| 0 <= j < s.len() && s[j] == above[i - n - 1];
                assert(s[j].0 == q);
            }
        }
        if q == k {
            assert(t[n].0 == k);
        } else if has_key(s, q) {
            K::before_total(q, k);
            let j = position_of(s, q);
            lemma_lookup_at(s, j);
            if K::before(q, k) {
                assert(lookup(below, q) is Some);
                let i = position_of(below, q);
                assert(t[i].0 == q);
            } else {
                assert(lookup(above, q) is Some);
                let i = position_of(above, q);
                assert(t[n + 1 + i].0 == q);
            }
        }
    }
    assert forall|q: K::V| #[trigger]
        lookup(t, q) == if q == k {
            Some(x)
        } else {
            lookup(s, q)
        } by {
        let n = below.len() as int;
        if q == k {
            lemma_lookup_at(t, n);
        } else if has_key(s, q) {
            K::before_total(q, k);
            let j = position_of(s, q);
            lemma_lookup_at(s, j);
            if K::before(q, k) {
                assert(lookup(below, q) is Some);
                let i = position_of(below, q);
                lemma_lookup_at(below, i);
                lemma_lookup_at(t, i);
            } else {
                assert(lookup(above, q) is Some);
                let i = position_of(above, q);
                lemma_lookup_at(above, i);
                lemma_lookup_at(t, n + 1 + i);
            }
        }
    }
}

} // verus!
