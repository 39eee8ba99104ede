//! The delete-tracking ordered containers.
//!
//! `DeleteMap` keeps its keys in the order in which they were first
//! inserted; `SortedDeleteMap` and `SortedDeleteSet` keep them in the order
//! of the keys. Each may hold tombstones, which only a diff produces.

use crate::assoc::{distinct_keys, has_key, lemma_lookup_at, lookup};
use crate::datum::{Datum, Key, OrdKey};
use crate::util::ascending::{
    ascending, lemma_ascending_distinct, lemma_sorted_diff, lemma_sorted_insert,
    lemma_sorted_merge, lemma_split_at, sorted_collected, sorted_diff, sorted_insert,
    sorted_merge, sorted_union,
};
use crate::util::delta::{
    delete_diff, delete_merge, is_added, is_changed, is_kept, is_live, is_removed,
    lemma_diff_keys, lemma_merge_keys, live_value, overwritten, tombstone,
};
use vstd::prelude::*;

verus! {

/// The first place at which `entries` holds `key`.
pub fn find<K: Datum, X: DeepView>(entries: &Vec<(K, X)>, key: &K) -> (r: Option<usize>)
    ensures
        match r {
            Some(i) => i < entries.len() && entries.deep_view()[i as int].0 == key.deep_view()
                && forall|j: int| 0 <= j < i ==> entries.deep_view()[j].0 != key.deep_view(),
            None => !has_key(entries.deep_view(), key.deep_view()),
        },
{
    let mut i: usize = 0;
    while i < entries.len()
        invariant
            i <= entries.len(),
            forall|j: int| 0 <= j < i ==> entries.deep_view()[j].0 != key.deep_view(),
        decreases entries.len() - i,
    {
        if entries[i].0.same(key) {
            return Some(i);
        }
        i = i + 1;
    }
    None
}

/// A way to look keys up in a table of entries.
pub trait Lookup<K: Datum, V: Datum> {
    /// The table that is searched.
    spec fn table(&self) -> Seq<(K::V, Option<V::V>)>;

    /// What the table must be like for the search to be right.
    spec fn ready(&self) -> bool;

    /// What the table holds under `key`: a value, a tombstone, or nothing.
    fn seek(&self, key: &K) -> (r: Option<&Option<V>>)
        requires
            self.ready(),
        ensures
            r.deep_view() == lookup(self.table(), key.deep_view()),
    ;
}

/// Looks keys up in an index from keys to places, which is built once.
pub struct Hashed<'a, K: Key, V: Datum> {
    entries: &'a Vec<(K, Option<V>)>,
    index: K::Index,
}

/// The index holds every key of `s`, and for each the place where it
/// stands.
pub open spec fn indexes<K, X>(places: Map<K, usize>, s: Seq<(K, X)>) -> bool {
    &&& forall|k: K| #[trigger] places.contains_key(k) <==> has_key(s, k)
    &&& forall|k: K|
        #[trigger] places.contains_key(k) ==> places[k] < s.len() && s[places[k] as int].0 == k
}

impl<'a, K: Key, V: Datum> Hashed<'a, K, V> {
    /// The index of `entries`.
    pub fn build(entries: &'a Vec<(K, Option<V>)>) -> (r: Self)
        requires
            distinct_keys(entries.deep_view()),
        ensures
            r.ready(),
            r.table() == entries.deep_view(),
    {
        let mut index = K::index_new();
        let mut i: usize = 0;
        let ghost s = entries.deep_view();
        while i < entries.len()
            invariant
                i <= entries.len(),
                s == entries.deep_view(),
                indexes(K::places(&index), s.take(i as int)),
            decreases entries.len() - i,
        {
            let ghost before = K::places(&index);
            K::index_put(&mut index, &entries[i].0, i);
            proof {
                let a = s.take(i as int);
                let b = s.take(i + 1);
                let now = K::places(&index);
                assert(b =~= a.push(s[i as int]));
                assert forall|k: K::V| #[trigger] now.contains_key(k) <==> has_key(b, k) by {
                    if has_key(a, k) {
                        let j = crate::assoc::position_of(a, k);
                        assert(b[j].0 == k);
                    }
                    if k == s[i as int].0 {
                        assert(b[i as int].0 == k);
                    }
                    if has_key(b, k) {
                        let j = crate::assoc::position_of(b, k);
                        if j < i {
                            assert(a[j].0 == k);
                        }
                    }
                }
                assert forall|k: K::V| #[trigger] now.contains_key(k) implies now[k] < b.len()
                    && b[now[k] as int].0 == k by {
                    if k != s[i as int].0 {
                        assert(before.contains_key(k));
                        assert(a[before[k] as int] == b[before[k] as int]);
                    }
                }
            }
            i = i + 1;
        }
        proof {
            assert(s.take(i as int) =~= s);
        }
        Hashed { entries, index }
    }
}

impl<'a, K: Key, V: Datum> Lookup<K, V> for Hashed<'a, K, V> {
    closed spec fn table(&self) -> Seq<(K::V, Option<V::V>)> {
        self.entries.deep_view()
    }

    closed spec fn ready(&self) -> bool {
        distinct_keys(self.entries.deep_view()) && indexes(
            K::places(&self.index),
            self.entries.deep_view(),
        )
    }

    fn seek(&self, key: &K) -> (r: Option<&Option<V>>) {
        match K::index_get(&self.index, key) {
            None => None,
            Some(i) => {
                proof {
                    lemma_lookup_at(self.entries.deep_view(), i as int);
                }
                Some(&self.entries[i].1)
            },
        }
    }
}

/// Looks keys up by halving ascending entries.
pub struct Bisect<'a, K: OrdKey, V: Datum> {
    pub entries: &'a Vec<(K, Option<V>)>,
}

/// The first place in ascending `entries` whose key does not come before
/// `key`.
pub fn lower_bound<K: OrdKey, X: DeepView>(entries: &Vec<(K, X)>, key: &K) -> (r: usize)
    requires
        ascending::<K, X::V>(entries.deep_view()),
    ensures
        r <= entries.len(),
        forall|j: int| 0 <= j < r ==> K::before(entries.deep_view()[j].0, key.deep_view()),
        forall|j: int|
            r <= j < entries.len() ==> !K::before(
                (#[trigger] entries.deep_view()[j]).0,
                key.deep_view(),
            ),
{
    let mut lo: usize = 0;
    let mut hi: usize = entries.len();
    let ghost s = entries.deep_view();
    while lo < hi
        invariant
            lo <= hi <= entries.len(),
            s == entries.deep_view(),
            ascending::<K, X::V>(s),
            forall|j: int| 0 <= j < lo ==> K::before((#[trigger] s[j]).0, key.deep_view()),
            forall|j: int| hi <= j < s.len() ==> !K::before((#[trigger] s[j]).0, key.deep_view()),
        decreases hi - lo,
    {
        let mid = lo + (hi - lo) / 2;
        if entries[mid].0.precedes(key) {
            proof {
                assert forall|j: int| 0 <= j < mid + 1 implies K::before(
                    (#[trigger] s[j]).0,
                    key.deep_view(),
                ) by {
                    if j < mid {
                        assert(K::before(s[j].0, s[mid as int].0));
                        K::before_transitive(s[j].0, s[mid as int].0, key.deep_view());
                    }
                }
            }
            lo = mid + 1;
        } else {
            proof {
                assert forall|j: int| mid <= j < s.len() implies !K::before(
                    (#[trigger] s[j]).0,
                    key.deep_view(),
                ) by {
                    if j > mid && K::before(s[j].0, key.deep_view()) {
                        assert(K::before(s[mid as int].0, s[j].0));
                        K::before_transitive(s[mid as int].0, s[j].0, key.deep_view());
                    }
                }
            }
            hi = mid;
        }
    }
    lo
}

/// The place at which ascending `entries` hold `key`.
pub fn find_sorted<K: OrdKey, X: DeepView>(entries: &Vec<(K, X)>, key: &K) -> (r: Option<usize>)
    requires
        ascending::<K, X::V>(entries.deep_view()),
    ensures
        match r {
            Some(i) => i < entries.len() && entries.deep_view()[i as int].0 == key.deep_view(),
            None => !has_key(entries.deep_view(), key.deep_view()),
        },
{
    let p = lower_bound(entries, key);
    let ghost s = entries.deep_view();
    if p < entries.len() && entries[p].0.same(key) {
        Some(p)
    } else {
        proof {
            if has_key(s, key.deep_view()) {
                let i = crate::assoc::position_of(s, key.deep_view());
                K::before_irreflexive(key.deep_view());
                if i > p {
                    assert(K::before(s[p as int].0, s[i].0));
                    assert(!K::before(s[p as int].0, key.deep_view()));
                }
            }
        }
        None
    }
}

impl<'a, K: OrdKey, V: Datum> Lookup<K, V> for Bisect<'a, K, V> {
    open spec fn table(&self) -> Seq<(K::V, Option<V::V>)> {
        self.entries.deep_view()
    }

    open spec fn ready(&self) -> bool {
        ascending::<K, Option<V::V>>(self.entries.deep_view())
    }

    fn seek(&self, key: &K) -> (r: Option<&Option<V>>) {
        match find_sorted(self.entries, key) {
            None => None,
            Some(i) => {
                proof {
                    lemma_ascending_distinct::<K, Option<V::V>>(self.entries.deep_view());
                    lemma_lookup_at(self.entries.deep_view(), i as int);
                }
                Some(&self.entries[i].1)
            },
        }
    }
}

/// The live value under `key` in the table of `index`.
pub fn seek_live<'a, K: Datum, V: Datum, L: Lookup<K, V>>(index: &'a L, key: &K) -> (r: Option<&'a V>)
    requires
        index.ready(),
    ensures
        r.deep_view() == live_value(index.table(), key.deep_view()),
{
    match index.seek(key) {
        Some(Some(v)) => Some(v),
        _ => None,
    }
}

/// The entries of `other` that are new against the table of `base` or
/// differ from it.
fn changed<K: Datum, V: Datum, L: Lookup<K, V>>(base: &L, other: &Vec<(K, Option<V>)>) -> (out:
    Vec<(K, Option<V>)>)
    requires
        base.ready(),
    ensures
        out.deep_view() == other.deep_view().filter(is_changed(base.table())),
{
    let mut out: Vec<(K, Option<V>)> = Vec::new();
    let mut i: usize = 0;
    let ghost b = base.table();
    let ghost o = other.deep_view();
    proof {
        reveal(Seq::filter);
        assert(out.deep_view() =~= o.take(0).filter(is_changed(b)));
    }
    while i < other.len()
        invariant
            i <= other.len(),
            b == base.table(),
            o == other.deep_view(),
            base.ready(),
            out.deep_view() == o.take(i as int).filter(is_changed(b)),
        decreases other.len() - i,
    {
        let keep = match &other[i].1 {
            None => false,
            Some(v) => match seek_live(base, &other[i].0) {
                None => true,
                Some(w) => !w.same(v),
            },
        };
        proof {
            assert(o.take(i + 1) =~= o.take(i as int).push(o[i as int]));
            o.take(i as int).lemma_filter_push(o[i as int], is_changed(b));
            assert(keep == is_changed(b)(o[i as int]));
        }
        if keep {
            let ghost before = out.deep_view();
            out.push((other[i].0.dup(), other[i].1.dup()));
            proof {
                assert(out.deep_view() =~= before.push(o[i as int]));
            }
        }
        i = i + 1;
    }
    proof {
        assert(o.take(i as int) =~= o);
    }
    out
}

/// A tombstone for each live entry of `base` whose key the table of `other`
/// lacks.
pub fn removed<K: Datum, V: Datum, L: Lookup<K, V>>(base: &Vec<(K, Option<V>)>, other: &L) -> (out:
    Vec<(K, Option<V>)>)
    requires
        other.ready(),
    ensures
        out.deep_view() == base.deep_view().filter(is_removed(other.table())).map_values(
            tombstone(),
        ),
{
    let mut out: Vec<(K, Option<V>)> = Vec::new();
    let mut i: usize = 0;
    let ghost b = base.deep_view();
    let ghost o = other.table();
    proof {
        reveal(Seq::filter);
        assert(out.deep_view() =~= b.take(0).filter(is_removed(o)).map_values(tombstone()));
    }
    while i < base.len()
        invariant
            i <= base.len(),
            b == base.deep_view(),
            o == other.table(),
            other.ready(),
            out.deep_view() == b.take(i as int).filter(is_removed(o)).map_values(tombstone()),
        decreases base.len() - i,
    {
        let gone = match &base[i].1 {
            None => false,
            Some(_) => seek_live(other, &base[i].0).is_none(),
        };
        proof {
            assert(b.take(i + 1) =~= b.take(i as int).push(b[i as int]));
            b.take(i as int).lemma_filter_push(b[i as int], is_removed(o));
            assert(gone == is_removed(o)(b[i as int]));
        }
        if gone {
            let ghost before = out.deep_view();
            out.push((base[i].0.dup(), None));
            proof {
                let f = b.take(i as int).filter(is_removed(o));
                assert(f.push(b[i as int]).map_values(tombstone()) =~= f.map_values(
                    tombstone(),
                ).push(tombstone()(b[i as int])));
                assert(out.deep_view() =~= before.push(tombstone()(b[i as int])));
            }
        }
        i = i + 1;
    }
    proof {
        assert(b.take(i as int) =~= b);
    }
    out
}

/// The live entries of `base` that the table of `diff` does not delete,
/// each with the value that it gives the key.
fn kept<K: Datum, V: Datum, L: Lookup<K, V>>(base: &Vec<(K, Option<V>)>, diff: &L) -> (out: Vec<
    (K, Option<V>),
>)
    requires
        diff.ready(),
    ensures
        out.deep_view() == base.deep_view().filter(is_kept(diff.table())).map_values(
            overwritten(diff.table()),
        ),
{
    let mut out: Vec<(K, Option<V>)> = Vec::new();
    let mut i: usize = 0;
    let ghost b = base.deep_view();
    let ghost d = diff.table();
    proof {
        reveal(Seq::filter);
        assert(out.deep_view() =~= b.take(0).filter(is_kept(d)).map_values(overwritten(d)));
    }
    while i < base.len()
        invariant
            i <= base.len(),
            b == base.deep_view(),
            d == diff.table(),
            diff.ready(),
            out.deep_view() == b.take(i as int).filter(is_kept(d)).map_values(overwritten(d)),
        decreases base.len() - i,
    {
        proof {
            assert(b.take(i + 1) =~= b.take(i as int).push(b[i as int]));
            b.take(i as int).lemma_filter_push(b[i as int], is_kept(d));
        }
        let ghost before = out.deep_view();
        let ghost f = b.take(i as int).filter(is_kept(d));
        match &base[i].1 {
            None => {},
            Some(v) => {
                let value = match diff.seek(&base[i].0) {
                    None => Some(v.dup()),
                    Some(None) => None,
                    Some(Some(w)) => Some(w.dup()),
                };
                match value {
                    None => {
                        proof {
                            assert(!is_kept(d)(b[i as int]));
                        }
                    },
                    Some(x) => {
                        out.push((base[i].0.dup(), Some(x)));
                        proof {
                            assert(is_kept(d)(b[i as int]));
                            assert(f.push(b[i as int]).map_values(overwritten(d))
                                =~= f.map_values(overwritten(d)).push(
                                overwritten(d)(b[i as int]),
                            ));
                            assert(out.deep_view() =~= before.push(overwritten(d)(b[i as int])));
                        }
                    },
                }
            },
        }
        i = i + 1;
    }
    proof {
        assert(b.take(i as int) =~= b);
    }
    out
}

/// The live entries of `diff` whose keys the table of `base` lacks.
pub fn added<K: Datum, V: Datum, L: Lookup<K, V>>(base: &L, diff: &Vec<(K, Option<V>)>) -> (out: Vec<
    (K, Option<V>),
>)
    requires
        base.ready(),
    ensures
        out.deep_view() == diff.deep_view().filter(is_added(base.table())),
{
    let mut out: Vec<(K, Option<V>)> = Vec::new();
    let mut i: usize = 0;
    let ghost b = base.table();
    let ghost d = diff.deep_view();
    proof {
        reveal(Seq::filter);
        assert(out.deep_view() =~= d.take(0).filter(is_added(b)));
    }
    while i < diff.len()
        invariant
            i <= diff.len(),
            b == base.table(),
            d == diff.deep_view(),
            base.ready(),
            out.deep_view() == d.take(i as int).filter(is_added(b)),
        decreases diff.len() - i,
    {
        let fresh = match &diff[i].1 {
            None => false,
            Some(_) => seek_live(base, &diff[i].0).is_none(),
        };
        proof {
            assert(d.take(i + 1) =~= d.take(i as int).push(d[i as int]));
            d.take(i as int).lemma_filter_push(d[i as int], is_added(b));
            assert(fresh == is_added(b)(d[i as int]));
        }
        if fresh {
            let ghost before = out.deep_view();
            out.push((diff[i].0.dup(), diff[i].1.dup()));
            proof {
                assert(out.deep_view() =~= before.push(d[i as int]));
            }
        }
        i = i + 1;
    }
    proof {
        assert(d.take(i as int) =~= d);
    }
    out
}

/// Two ascending vectors merged into one.
fn union<K: OrdKey, X: Datum>(a: &Vec<(K, X)>, b: &Vec<(K, X)>) -> (out: Vec<(K, X)>)
    ensures
        out.deep_view() == sorted_union::<K, X::V>(a.deep_view(), b.deep_view()),
{
    let mut out: Vec<(K, X)> = Vec::new();
    let mut i: usize = 0;
    let mut j: usize = 0;
    let ghost av = a.deep_view();
    let ghost bv = b.deep_view();
    proof {
        assert(av.skip(0) =~= av);
        assert(bv.skip(0) =~= bv);
        assert(out.deep_view() + sorted_union::<K, X::V>(av, bv) =~= sorted_union::<K, X::V>(
            av,
            bv,
        ));
    }
    while i < a.len() || j < b.len()
        invariant
            i <= a.len(),
            j <= b.len(),
            av == a.deep_view(),
            bv == b.deep_view(),
            out.deep_view() + sorted_union::<K, X::V>(av.skip(i as int), bv.skip(j as int))
                == sorted_union::<K, X::V>(av, bv),
        decreases a.len() - i + b.len() - j,
    {
        let from_a = if i == a.len() {
            false
        } else if j == b.len() {
            true
        } else {
            a[i].0.precedes(&b[j].0)
        };
        let ghost before = out.deep_view();
        let ghost ra = av.skip(i as int);
        let ghost rb = bv.skip(j as int);
        if from_a {
            out.push(a[i].dup());
            proof {
                assert(ra.skip(1) =~= av.skip(i + 1));
                assert(ra[0] == av[i as int]);
                if j == b.len() {
                    assert(sorted_union::<K, X::V>(ra, rb) == ra);
                    assert(sorted_union::<K, X::V>(ra.skip(1), rb) == ra.skip(1));
                    assert(ra =~= seq![ra[0]] + ra.skip(1));
                }
                assert(out.deep_view() =~= before.push(ra[0]));
                assert(out.deep_view() + sorted_union::<K, X::V>(ra.skip(1), rb) =~= before + (
                seq![ra[0]] + sorted_union::<K, X::V>(ra.skip(1), rb)));
            }
            i = i + 1;
        } else {
            out.push(b[j].dup());
            proof {
                assert(rb.skip(1) =~= bv.skip(j + 1));
                assert(rb[0] == bv[j as int]);
                if i == a.len() {
                    assert(sorted_union::<K, X::V>(ra, rb) == rb);
                    assert(sorted_union::<K, X::V>(ra, rb.skip(1)) == rb.skip(1));
                    assert(rb =~= seq![rb[0]] + rb.skip(1));
                }
                assert(out.deep_view() =~= before.push(rb[0]));
                assert(out.deep_view() + sorted_union::<K, X::V>(ra, rb.skip(1)) =~= before + (
                seq![rb[0]] + sorted_union::<K, X::V>(ra, rb.skip(1))));
            }
            j = j + 1;
        }
    }
    proof {
        assert(sorted_union::<K, X::V>(av.skip(i as int), bv.skip(j as int)) =~= Seq::empty());
        assert(out.deep_view() =~= out.deep_view() + Seq::empty());
    }
    out
}


/// `s` with `x` under `k`: in the place of the old value where `s` has the
/// key, else at the end.
pub open spec fn assoc_insert<K, X>(s: Seq<(K, X)>, k: K, x: X) -> Seq<(K, X)> {
    if has_key(s, k) {
        s.update(crate::assoc::position_of(s, k), (k, x))
    } else {
        s.push((k, x))
    }
}

/// The live entries of `s`, each key with its value.
pub open spec fn live_pairs<K, V>(s: Seq<(K, Option<V>)>) -> Seq<(K, V)> {
    s.filter(|e: (K, Option<V>)| e.1 is Some).map_values(|e: (K, Option<V>)| (e.0, e.1.unwrap()))
}

/// The entries that inserting `pairs` one by one leaves.
pub open spec fn collected<K, V>(pairs: Seq<(K, V)>) -> Seq<(K, Option<V>)>
    decreases pairs.len(),
{
    if pairs.len() == 0 {
        Seq::empty()
    } else {
        assoc_insert(collected(pairs.drop_last()), pairs.last().0, Some(pairs.last().1))
    }
}

/// Inserting into distinct keys leaves distinct keys.
pub proof fn lemma_insert_keys<K, X>(s: Seq<(K, X)>, k: K, x: X)
    requires
        distinct_keys(s),
    ensures
        distinct_keys(assoc_insert(s, k, x)),
        forall|q: K| has_key(assoc_insert(s, k, x), q) <==> (q == k || has_key(s, q)),
        forall|q: K|
            #[trigger] lookup(assoc_insert(s, k, x), q) == if q == k {
                Some(x)
            } else {
                lookup(s, q)
            },
{
    let t = assoc_insert(s, k, x);
    if has_key(s, k) {
        let p = crate::assoc::position_of(s, k);
        assert forall|i: int, j: int| 0 <= i < j < t.len() implies (#[trigger] t[i]).0 != (
        #[trigger] t[j]).0 by {
            assert(s[i].0 != s[j].0);
        }
        assert forall|q: K| has_key(t, q) <==> (q == k || has_key(s, q)) by {
            if has_key(t, q) {
                let i = crate::assoc::position_of(t, q);
                assert(s[i].0 == t[i].0);
            }
            if has_key(s, q) {
                let i = crate::assoc::position_of(s, q);
                assert(t[i].0 == s[i].0);
            }
            if q == k {
                assert(t[p].0 == k);
            }
        }
        assert forall|q: K|
            #[trigger] lookup(t, q) == if q == k {
                Some(x)
            } else {
                lookup(s, q)
            } by {
            if q == k {
                lemma_lookup_at(t, p);
            } else if has_key(s, q) {
                let i = crate::assoc::position_of(s, q);
                lemma_lookup_at(s, i);
                lemma_lookup_at(t, i);
            }
        }
    } else {
        crate::assoc::lemma_push_keys(s, (k, x));
    }
}

/// The live entries of `entries`, each key with its value.
pub fn live_entries<K: Datum, V: Datum>(entries: &Vec<(K, Option<V>)>) -> (out: Vec<(K, V)>)
    ensures
        out.deep_view() == live_pairs(entries.deep_view()),
{
    let mut out: Vec<(K, V)> = Vec::new();
    let mut i: usize = 0;
    let ghost s = entries.deep_view();
    let ghost p = |e: (K::V, Option<V::V>)| e.1 is Some;
    let ghost f = |e: (K::V, Option<V::V>)| (e.0, e.1.unwrap());
    proof {
        reveal(Seq::filter);
        assert(out.deep_view() =~= s.take(0).filter(p).map_values(f));
    }
    while i < entries.len()
        invariant
            i <= entries.len(),
            s == entries.deep_view(),
            p == |e: (K::V, Option<V::V>)| e.1 is Some,
            f == |e: (K::V, Option<V::V>)| (e.0, e.1.unwrap()),
            out.deep_view() == s.take(i as int).filter(p).map_values(f),
        decreases entries.len() - i,
    {
        proof {
            assert(s.take(i + 1) =~= s.take(i as int).push(s[i as int]));
            s.take(i as int).lemma_filter_push(s[i as int], p);
        }
        let ghost before = out.deep_view();
        match &entries[i].1 {
            None => {},
            Some(v) => {
                out.push((entries[i].0.dup(), v.dup()));
                proof {
                    let t = s.take(i as int).filter(p);
                    assert(t.push(s[i as int]).map_values(f) =~= t.map_values(f).push(
                        f(s[i as int]),
                    ));
                    assert(out.deep_view() =~= before.push(f(s[i as int])));
                }
            },
        }
        i = i + 1;
    }
    proof {
        assert(s.take(i as int) =~= s);
    }
    out
}

/// An ordered map that remembers deletions. Its keys stay in the order in
/// which they were first inserted. A key holds a value, or a tombstone that
/// says the key was deleted.
#[derive(Debug)]
pub struct DeleteMap<K: Key, V: Datum> {
    entries: Vec<(K, Option<V>)>,
}

impl<K: Key, V: Datum> View for DeleteMap<K, V> {
    type V = Seq<(K::V, Option<V::V>)>;

    closed spec fn view(&self) -> Self::V {
        self.entries.deep_view()
    }
}

impl<K: Key, V: Datum> DeepView for DeleteMap<K, V> {
    type V = Seq<(K::V, Option<V::V>)>;

    open spec fn deep_view(&self) -> Self::V {
        self.view()
    }
}

impl<K: Key, V: Datum> DeleteMap<K, V> {
    /// No key occurs twice.
    #[verifier::type_invariant]
    spec fn wf(self) -> bool {
        distinct_keys(self.entries.deep_view())
    }

    /// Recalls that no key occurs twice; it does nothing when run.
    pub fn distinct(&self)
        ensures
            distinct_keys(self@),
    {
        proof {
            use_type_invariant(self);
        }
    }

    /// The empty map.
    pub fn new() -> (r: Self)
        ensures
            r@ == Seq::<(K::V, Option<V::V>)>::empty(),
    {
        let r = DeleteMap { entries: Vec::new() };
        assert(r.entries.deep_view() =~= Seq::<(K::V, Option<V::V>)>::empty());
        r
    }

    /// The number of entries, tombstones included.
    pub fn len(&self) -> (r: usize)
        ensures
            r == self@.len(),
    {
        self.entries.len()
    }

    /// Whether the map has no entry at all.
    pub fn is_empty(&self) -> (r: bool)
        ensures
            r == (self@.len() == 0),
    {
        self.entries.len() == 0
    }

    /// Whether the map holds no tombstone.
    pub fn is_materialized(&self) -> (r: bool)
        ensures
            r == is_live(self@),
    {
        let mut i: usize = 0;
        while i < self.entries.len()
            invariant
                i <= self.entries.len(),
                forall|j: int| 0 <= j < i ==> (#[trigger] self.entries.deep_view()[j]).1 is Some,
            decreases self.entries.len() - i,
        {
            if self.entries[i].1.is_none() {
                assert(self.entries.deep_view()[i as int].1 is None);
                return false;
            }
            i = i + 1;
        }
        true
    }

    /// The live value under `key`.
    pub fn get(&self, key: &K) -> (r: Option<&V>)
        ensures
            r.deep_view() == live_value(self@, key.deep_view()),
    {
        proof {
            use_type_invariant(self);
        }
        match find(&self.entries, key) {
            None => None,
            Some(i) => {
                proof {
                    lemma_lookup_at(self.entries.deep_view(), i as int);
                }
                match &self.entries[i].1 {
                    Some(v) => Some(v),
                    None => None,
                }
            },
        }
    }

    /// Whether `key` holds a live value.
    pub fn contains_key(&self, key: &K) -> (r: bool)
        ensures
            r == live_value(self@, key.deep_view()).is_some(),
    {
        self.get(key).is_some()
    }

    /// Whether `key` holds a tombstone.
    pub fn is_deleted(&self, key: &K) -> (r: bool)
        ensures
            r == (lookup(self@, key.deep_view()) == Some(None::<V::V>)),
    {
        proof {
            use_type_invariant(self);
        }
        match find(&self.entries, key) {
            None => false,
            Some(i) => {
                proof {
                    lemma_lookup_at(self.entries.deep_view(), i as int);
                }
                self.entries[i].1.is_none()
            },
        }
    }

    /// Puts `value` under `key`: in the place of the old entry where the key
    /// is known, else at the end.
    pub fn insert(&mut self, key: K, value: V)
        ensures
            final(self)@ == assoc_insert(old(self)@, key.deep_view(), Some(value.deep_view())),
    {
        proof {
            use_type_invariant(&*self);
            lemma_insert_keys(self.entries.deep_view(), key.deep_view(), Some(value.deep_view()));
        }
        let ghost before = self.entries.deep_view();
        let found = find(&self.entries, &key);
        let mut taken = DeleteMap { entries: Vec::new() };
        core::mem::swap(self, &mut taken);
        let DeleteMap { entries: mut entries } = taken;
        match found {
            None => {
                entries.push((key, Some(value)));
                proof {
                    assert(entries.deep_view() =~= before.push(
                        (key.deep_view(), Some(value.deep_view())),
                    ));
                }
            },
            Some(i) => {
                proof {
                    lemma_lookup_at(before, i as int);
                    let p = crate::assoc::position_of(before, key.deep_view());
                    assert(before[p].0 == before[i as int].0);
                    assert(p == i);
                }
                entries.set(i, (key, Some(value)));
                proof {
                    assert(entries.deep_view() =~= before.update(
                        i as int,
                        (key.deep_view(), Some(value.deep_view())),
                    ));
                }
            },
        }
        *self = DeleteMap { entries };
    }

    /// The map that inserting `pairs` one by one into an empty map gives.
    pub fn from_pairs(pairs: Vec<(K, V)>) -> (r: Self)
        ensures
            r@ == collected(pairs.deep_view()),
    {
        let mut entries: Vec<(K, Option<V>)> = Vec::new();
        let mut index = K::index_new();
        let mut i: usize = 0;
        let ghost p = pairs.deep_view();
        proof {
            assert(entries.deep_view() =~= collected(p.take(0)));
        }
        while i < pairs.len()
            invariant
                i <= pairs.len(),
                p == pairs.deep_view(),
                entries.deep_view() == collected(p.take(i as int)),
                distinct_keys(entries.deep_view()),
                indexes(K::places(&index), entries.deep_view()),
            decreases pairs.len() - i,
        {
            proof {
                assert(p.take(i + 1).drop_last() =~= p.take(i as int));
                assert(p.take(i + 1).last() == p[i as int]);
            }
            let ghost before = entries.deep_view();
            let ghost places = K::places(&index);
            let ghost k = p[i as int].0;
            let ghost e = (k, Some(p[i as int].1));
            proof {
                lemma_insert_keys(before, k, Some(p[i as int].1));
            }
            match K::index_get(&index, &pairs[i].0) {
                Some(at) => {
                    proof {
                        lemma_lookup_at(before, at as int);
                        let q = crate::assoc::position_of(before, k);
                        assert(before[q].0 == before[at as int].0);
                        assert(q == at);
                    }
                    entries.set(at, (pairs[i].0.dup(), Some(pairs[i].1.dup())));
                    proof {
                        let now = entries.deep_view();
                        assert(now =~= before.update(at as int, e));
                        assert forall|x: K::V| #[trigger]
                            places.contains_key(x) implies places[x] < now.len()
                            && now[places[x] as int].0 == x by {
                            assert(before[places[x] as int].0 == x);
                        }
                    }
                },
                None => {
                    K::index_put(&mut index, &pairs[i].0, entries.len());
                    entries.push((pairs[i].0.dup(), Some(pairs[i].1.dup())));
                    proof {
                        let now = entries.deep_view();
                        let after = K::places(&index);
                        assert(now =~= before.push(e));
                        assert forall|x: K::V| #[trigger]
                            after.contains_key(x) implies after[x] < now.len()
                            && now[after[x] as int].0 == x by {
                            if x != k {
                                assert(places.contains_key(x));
                                assert(before[places[x] as int] == now[places[x] as int]);
                            }
                        }
                    }
                },
            }
            i = i + 1;
        }
        proof {
            assert(p.take(i as int) =~= p);
        }
        DeleteMap { entries }
    }

    /// The live entries, in order: what a materialized value is written
    /// out as. No tombstone is among them.
    pub fn pairs(&self) -> (r: Vec<(K, V)>)
        ensures
            r.deep_view() == live_pairs(self@),
    {
        live_entries(&self.entries)
    }

    /// Every entry in order, a tombstone as `None`.
    pub fn entries(&self) -> (r: Vec<(K, Option<V>)>)
        ensures
            r.deep_view() == self@,
    {
        self.entries.dup()
    }

    /// The entries themselves, in order, a tombstone as `None`.
    pub fn into_entries(self) -> (r: Vec<(K, Option<V>)>)
        ensures
            r.deep_view() == self@,
            distinct_keys(r.deep_view()),
    {
        proof {
            use_type_invariant(&self);
        }
        self.entries
    }

    /// The diff from `self` to `other`: what is new or changed in `other`,
    /// then a tombstone for each key that only `self` has.
    pub fn diff(&self, other: &Self) -> (r: Self)
        ensures
            r@ == delete_diff(self@, other@),
    {
        proof {
            use_type_invariant(self);
            use_type_invariant(other);
            lemma_diff_keys(self.entries.deep_view(), other.entries.deep_view());
        }
        let mut out = changed(&Hashed::build(&self.entries), &other.entries);
        let mut gone = removed(&self.entries, &Hashed::build(&other.entries));
        let ghost a = out.deep_view();
        let ghost b = gone.deep_view();
        out.append(&mut gone);
        proof {
            assert(out.deep_view() =~= a + b);
        }
        DeleteMap { entries: out }
    }

    /// `diff` applied to `self`: the entries it does not delete, with its
    /// values where it has any, then the entries it adds. The result holds
    /// no tombstone.
    pub fn merge(&self, diff: &Self) -> (r: Self)
        ensures
            r@ == delete_merge(self@, diff@),
            is_live(r@),
    {
        proof {
            use_type_invariant(self);
            use_type_invariant(diff);
            lemma_merge_keys(self.entries.deep_view(), diff.entries.deep_view());
        }
        let mut out = kept(&self.entries, &Hashed::build(&diff.entries));
        let mut fresh = added(&Hashed::build(&self.entries), &diff.entries);
        let ghost a = out.deep_view();
        let ghost b = fresh.deep_view();
        out.append(&mut fresh);
        proof {
            assert(out.deep_view() =~= a + b);
        }
        DeleteMap { entries: out }
    }
}

impl<K: Key, V: Datum> Datum for DeleteMap<K, V> {
    fn same(&self, other: &Self) -> (r: bool) {
        self.entries.same(&other.entries)
    }

    fn dup(&self) -> (r: Self) {
        proof {
            use_type_invariant(self);
        }
        DeleteMap { entries: self.entries.dup() }
    }
}


/// An ordered map that remembers deletions and keeps its keys in their own
/// order, whatever the order in which they came. A key holds a value, or a
/// tombstone that says the key was deleted.
#[derive(Debug)]
pub struct SortedDeleteMap<K: OrdKey, V: Datum> {
    entries: Vec<(K, Option<V>)>,
}

impl<K: OrdKey, V: Datum> View for SortedDeleteMap<K, V> {
    type V = Seq<(K::V, Option<V::V>)>;

    closed spec fn view(&self) -> Self::V {
        self.entries.deep_view()
    }
}

impl<K: OrdKey, V: Datum> DeepView for SortedDeleteMap<K, V> {
    type V = Seq<(K::V, Option<V::V>)>;

    open spec fn deep_view(&self) -> Self::V {
        self.view()
    }
}

impl<K: OrdKey, V: Datum> SortedDeleteMap<K, V> {
    /// The keys strictly ascend.
    #[verifier::type_invariant]
    spec fn wf(self) -> bool {
        ascending::<K, Option<V::V>>(self.entries.deep_view())
    }

    /// Recalls that the keys ascend, so that none occurs twice; it does
    /// nothing when run.
    pub fn ordered(&self)
        ensures
            ascending::<K, Option<V::V>>(self@),
            distinct_keys(self@),
    {
        proof {
            use_type_invariant(self);
            lemma_ascending_distinct::<K, Option<V::V>>(self.entries.deep_view());
        }
    }

    /// The empty map.
    pub fn new() -> (r: Self)
        ensures
            r@ == Seq::<(K::V, Option<V::V>)>::empty(),
    {
        let r = SortedDeleteMap { entries: Vec::new() };
        assert(r.entries.deep_view() =~= Seq::<(K::V, Option<V::V>)>::empty());
        r
    }

    /// The number of entries, tombstones included.
    pub fn len(&self) -> (r: usize)
        ensures
            r == self@.len(),
    {
        self.entries.len()
    }

    /// Whether the map has no entry at all.
    pub fn is_empty(&self) -> (r: bool)
        ensures
            r == (self@.len() == 0),
    {
        self.entries.len() == 0
    }

    /// Whether the map holds no tombstone.
    pub fn is_materialized(&self) -> (r: bool)
        ensures
            r == is_live(self@),
    {
        let mut i: usize = 0;
        while i < self.entries.len()
            invariant
                i <= self.entries.len(),
                forall|j: int| 0 <= j < i ==> (#[trigger] self.entries.deep_view()[j]).1 is Some,
            decreases self.entries.len() - i,
        {
            if self.entries[i].1.is_none() {
                assert(self.entries.deep_view()[i as int].1 is None);
                return false;
            }
            i = i + 1;
        }
        true
    }

    /// The live value under `key`.
    pub fn get(&self, key: &K) -> (r: Option<&V>)
        ensures
            r.deep_view() == live_value(self@, key.deep_view()),
    {
        proof {
            use_type_invariant(self);
            lemma_ascending_distinct::<K, Option<V::V>>(self.entries.deep_view());
        }
        match find_sorted(&self.entries, key) {
            None => None,
            Some(i) => {
                proof {
                    lemma_lookup_at(self.entries.deep_view(), i as int);
                }
                match &self.entries[i].1 {
                    Some(v) => Some(v),
                    None => None,
                }
            },
        }
    }

    /// Whether `key` holds a live value.
    pub fn contains_key(&self, key: &K) -> (r: bool)
        ensures
            r == live_value(self@, key.deep_view()).is_some(),
    {
        self.get(key).is_some()
    }

    /// Whether `key` holds a tombstone.
    pub fn is_deleted(&self, key: &K) -> (r: bool)
        ensures
            r == (lookup(self@, key.deep_view()) == Some(None::<V::V>)),
    {
        proof {
            use_type_invariant(self);
            lemma_ascending_distinct::<K, Option<V::V>>(self.entries.deep_view());
        }
        match find_sorted(&self.entries, key) {
            None => false,
            Some(i) => {
                proof {
                    lemma_lookup_at(self.entries.deep_view(), i as int);
                }
                self.entries[i].1.is_none()
            },
        }
    }

    /// Puts `value` under `key`, at the place that the order gives the key.
    pub fn insert(&mut self, key: K, value: V)
        ensures
            final(self)@ == sorted_insert::<K, Option<V::V>>(
                old(self)@,
                key.deep_view(),
                Some(value.deep_view()),
            ),
    {
        proof {
            use_type_invariant(&*self);
            lemma_sorted_insert::<K, Option<V::V>>(
                self.entries.deep_view(),
                key.deep_view(),
                Some(value.deep_view()),
            );
        }
        let ghost before = self.entries.deep_view();
        let ghost e = (key.deep_view(), Some(value.deep_view()));
        let p = lower_bound(&self.entries, &key);
        let found = p < self.entries.len() && self.entries[p].0.same(&key);
        proof {
            lemma_split_at::<K, Option<V::V>>(before, key.deep_view(), p as int);
        }
        let mut taken = SortedDeleteMap { entries: Vec::new() };
        core::mem::swap(self, &mut taken);
        let SortedDeleteMap { entries: mut entries } = taken;
        if found {
            entries.set(p, (key, Some(value)));
            proof {
                assert(entries.deep_view() =~= before.take(p as int) + seq![e] + before.skip(
                    p + 1,
                ));
            }
        } else {
            entries.insert(p, (key, Some(value)));
            proof {
                assert(entries.deep_view() =~= before.take(p as int) + seq![e] + before.skip(
                    p as int,
                ));
            }
        }
        *self = SortedDeleteMap { entries };
    }

    /// The map that inserting `pairs` one by one into an empty map gives.
    pub fn from_pairs(pairs: Vec<(K, V)>) -> (r: Self)
        ensures
            r@ == sorted_collected::<K, V::V>(pairs.deep_view()),
    {
        let mut r = Self::new();
        let mut i: usize = 0;
        let ghost p = pairs.deep_view();
        while i < pairs.len()
            invariant
                i <= pairs.len(),
                p == pairs.deep_view(),
                r@ == sorted_collected::<K, V::V>(p.take(i as int)),
            decreases pairs.len() - i,
        {
            proof {
                assert(p.take(i + 1).drop_last() =~= p.take(i as int));
            }
            r.insert(pairs[i].0.dup(), pairs[i].1.dup());
            i = i + 1;
        }
        proof {
            assert(p.take(i as int) =~= p);
        }
        r
    }

    /// The live entries, in the order of the keys: what a materialized
    /// value is written out as. No tombstone is among them.
    pub fn pairs(&self) -> (r: Vec<(K, V)>)
        ensures
            r.deep_view() == live_pairs(self@),
    {
        live_entries(&self.entries)
    }

    /// Every entry in the order of the keys, a tombstone as `None`.
    pub fn entries(&self) -> (r: Vec<(K, Option<V>)>)
        ensures
            r.deep_view() == self@,
    {
        self.entries.dup()
    }

    /// The diff from `self` to `other`: what is new or changed in `other`
    /// and a tombstone for each key that only `self` has, in the order of
    /// the keys.
    pub fn diff(&self, other: &Self) -> (r: Self)
        ensures
            r@ == sorted_diff::<K, V::V>(self@, other@),
    {
        proof {
            use_type_invariant(self);
            use_type_invariant(other);
            lemma_sorted_diff::<K, V::V>(self.entries.deep_view(), other.entries.deep_view());
        }
        let news = changed(&Bisect { entries: &self.entries }, &other.entries);
        let gone = removed(&self.entries, &Bisect { entries: &other.entries });
        SortedDeleteMap { entries: union(&news, &gone) }
    }

    /// `diff` applied to `self`: the entries it does not delete, with its
    /// values where it has any, and the entries it adds, in the order of the
    /// keys. The result holds no tombstone.
    pub fn merge(&self, diff: &Self) -> (r: Self)
        ensures
            r@ == sorted_merge::<K, V::V>(self@, diff@),
            is_live(r@),
    {
        proof {
            use_type_invariant(self);
            use_type_invariant(diff);
            lemma_sorted_merge::<K, V::V>(self.entries.deep_view(), diff.entries.deep_view());
        }
        let stay = kept(&self.entries, &Bisect { entries: &diff.entries });
        let fresh = added(&Bisect { entries: &self.entries }, &diff.entries);
        SortedDeleteMap { entries: union(&stay, &fresh) }
    }
}

impl<K: OrdKey, V: Datum> Datum for SortedDeleteMap<K, V> {
    fn same(&self, other: &Self) -> (r: bool) {
        self.entries.same(&other.entries)
    }

    fn dup(&self) -> (r: Self) {
        proof {
            use_type_invariant(self);
        }
        SortedDeleteMap { entries: self.entries.dup() }
    }
}


/// An item that carries the key by which a set orders and finds it.
pub trait Keyed: Datum {
    type Key: OrdKey;

    /// The key of an item with the value `v`.
    spec fn key_of(v: Self::V) -> <Self::Key as DeepView>::V;

    /// The item's key.
    fn key(&self) -> (k: Self::Key)
        ensures
            k.deep_view() == Self::key_of(self.deep_view()),
    ;
}

/// Every live entry of `s` stands under its item's own key.
pub open spec fn keyed<T: Keyed>(s: Seq<(<T::Key as DeepView>::V, Option<T::V>)>) -> bool {
    forall|i: int|
        0 <= i < s.len() ==> match (#[trigger] s[i]).1 {
            Some(v) => s[i].0 == T::key_of(v),
            None => true,
        }
}

/// Each item beside its key.
pub open spec fn with_keys<T: Keyed>(items: Seq<T::V>) -> Seq<(<T::Key as DeepView>::V, T::V)> {
    items.map_values(|v: T::V| (T::key_of(v), v))
}

/// The live items of `s`, in order.
pub open spec fn live_items<K, V>(s: Seq<(K, Option<V>)>) -> Seq<V> {
    live_pairs(s).map_values(|e: (K, V)| e.1)
}

/// If every live entry of `m` is a live entry of `a` or of `b`, and those
/// stand under their own keys, so do the entries of `m`.
proof fn lemma_keyed_from<T: Keyed>(
    m: Seq<(<T::Key as DeepView>::V, Option<T::V>)>,
    a: Seq<(<T::Key as DeepView>::V, Option<T::V>)>,
    b: Seq<(<T::Key as DeepView>::V, Option<T::V>)>,
)
    requires
        keyed::<T>(a),
        keyed::<T>(b),
        forall|i: int|
            0 <= i < m.len() && (#[trigger] m[i]).1 is Some ==> lookup(a, m[i].0) == Some(m[i].1)
                || lookup(b, m[i].0) == Some(m[i].1),
    ensures
        keyed::<T>(m),
{
    assert forall|i: int| 0 <= i < m.len() implies match (#[trigger] m[i]).1 {
        Some(v) => m[i].0 == T::key_of(v),
        None => true,
    } by {
        if m[i].1 is Some {
            if lookup(a, m[i].0) == Some(m[i].1) {
                let j = crate::assoc::position_of(a, m[i].0);
                assert(a[j].1 == m[i].1);
            } else {
                let j = crate::assoc::position_of(b, m[i].0);
                assert(b[j].1 == m[i].1);
            }
        }
    }
}

/// A set that remembers deletions and keeps its items in the order of
/// their keys. An item is found by its key alone.
#[derive(Debug)]
pub struct SortedDeleteSet<T: Keyed> {
    map: SortedDeleteMap<T::Key, T>,
}

impl<T: Keyed> View for SortedDeleteSet<T> {
    type V = Seq<(<T::Key as DeepView>::V, Option<T::V>)>;

    closed spec fn view(&self) -> Self::V {
        self.map@
    }
}

impl<T: Keyed> DeepView for SortedDeleteSet<T> {
    type V = Seq<(<T::Key as DeepView>::V, Option<T::V>)>;

    open spec fn deep_view(&self) -> Self::V {
        self.view()
    }
}

impl<T: Keyed> SortedDeleteSet<T> {
    /// Every live item stands under its own key.
    #[verifier::type_invariant]
    spec fn wf(self) -> bool {
        keyed::<T>(self.map@)
    }

    /// Recalls that the keys ascend, none twice, and that every live item
    /// stands under its own key; it does nothing when run.
    pub fn ordered(&self)
        ensures
            ascending::<T::Key, Option<T::V>>(self@),
            distinct_keys(self@),
            keyed::<T>(self@),
    {
        proof {
            use_type_invariant(self);
        }
        self.map.ordered();
    }

    /// The empty set.
    pub fn new() -> (r: Self)
        ensures
            r@ == Seq::<(<T::Key as DeepView>::V, Option<T::V>)>::empty(),
    {
        SortedDeleteSet { map: SortedDeleteMap::new() }
    }

    /// The number of entries, tombstones included.
    pub fn len(&self) -> (r: usize)
        ensures
            r == self@.len(),
    {
        self.map.len()
    }

    /// Whether the set has no entry at all.
    pub fn is_empty(&self) -> (r: bool)
        ensures
            r == (self@.len() == 0),
    {
        self.map.is_empty()
    }

    /// Whether the set holds no tombstone.
    pub fn is_materialized(&self) -> (r: bool)
        ensures
            r == is_live(self@),
    {
        self.map.is_materialized()
    }

    /// Whether a live item with the key of `item` is in the set.
    pub fn contains(&self, item: &T) -> (r: bool)
        ensures
            r == live_value(self@, T::key_of(item.deep_view())).is_some(),
    {
        let k = item.key();
        self.map.contains_key(&k)
    }

    /// Whether the key of `item` holds a tombstone.
    pub fn is_deleted(&self, item: &T) -> (r: bool)
        ensures
            r == (lookup(self@, T::key_of(item.deep_view())) == Some(None::<T::V>)),
    {
        let k = item.key();
        self.map.is_deleted(&k)
    }

    /// Puts `item` into the set, in the place of an item with the same key
    /// if there is one.
    pub fn insert(&mut self, item: T)
        ensures
            final(self)@ == sorted_insert::<T::Key, Option<T::V>>(
                old(self)@,
                T::key_of(item.deep_view()),
                Some(item.deep_view()),
            ),
    {
        proof {
            use_type_invariant(&*self);
        }
        self.map.ordered();
        let ghost before = self.map@;
        let ghost k = T::key_of(item.deep_view());
        let ghost after = sorted_insert::<T::Key, Option<T::V>>(
            before,
            k,
            Some(item.deep_view()),
        );
        let key = item.key();
        let mut taken = SortedDeleteSet { map: SortedDeleteMap::new() };
        core::mem::swap(self, &mut taken);
        let SortedDeleteSet { map: mut map } = taken;
        map.insert(key, item);
        proof {
            lemma_sorted_insert::<T::Key, Option<T::V>>(before, k, Some(item.deep_view()));
            lemma_ascending_distinct::<T::Key, Option<T::V>>(after);
            let one = seq![(k, Some(item.deep_view()))];
            assert(lookup(one, k) == Some(Some(item.deep_view()))) by {
                assert(distinct_keys(one));
                lemma_lookup_at(one, 0);
            }
            assert(keyed::<T>(one));
            assert forall|i: int| 0 <= i < after.len() && (#[trigger] after[i]).1 is Some implies (
            lookup(before, after[i].0) == Some(after[i].1) || lookup(one, after[i].0) == Some(
                after[i].1,
            )) by {
                lemma_lookup_at(after, i);
            }
            lemma_keyed_from::<T>(after, before, one);
        }
        *self = SortedDeleteSet { map };
    }

    /// The set that inserting `items` one by one into an empty set gives.
    pub fn from_items(items: Vec<T>) -> (r: Self)
        ensures
            r@ == sorted_collected::<T::Key, T::V>(with_keys::<T>(items.deep_view())),
    {
        let mut r = Self::new();
        let mut i: usize = 0;
        let ghost p = with_keys::<T>(items.deep_view());
        while i < items.len()
            invariant
                i <= items.len(),
                p == with_keys::<T>(items.deep_view()),
                r@ == sorted_collected::<T::Key, T::V>(p.take(i as int)),
            decreases items.len() - i,
        {
            proof {
                assert(p.take(i + 1).drop_last() =~= p.take(i as int));
            }
            r.insert(items[i].dup());
            i = i + 1;
        }
        proof {
            assert(p.take(i as int) =~= p);
        }
        r
    }

    /// The live items, in the order of their keys: what a materialized
    /// value is written out as. No tombstone is among them.
    pub fn items(&self) -> (r: Vec<T>)
        ensures
            r.deep_view() == live_items(self@),
    {
        let pairs = self.map.pairs();
        let mut out: Vec<T> = Vec::new();
        let mut i: usize = 0;
        while i < pairs.len()
            invariant
                i <= pairs.len(),
                out.len() == i,
                forall|j: int|
                    0 <= j < i ==> #[trigger] out.deep_view()[j] == pairs.deep_view()[j].1,
            decreases pairs.len() - i,
        {
            let ghost before = out.deep_view();
            out.push(pairs[i].1.dup());
            proof {
                assert(out.deep_view() =~= before.push(pairs.deep_view()[i as int].1));
            }
            i = i + 1;
        }
        proof {
            assert(out.deep_view() =~= live_items(self@));
        }
        out
    }

    /// Every entry in the order of the keys, a tombstone as `None`.
    pub fn entries(&self) -> (r: Vec<(T::Key, Option<T>)>)
        ensures
            r.deep_view() == self@,
    {
        self.map.entries()
    }

    /// The diff from `self` to `other`: the items that are new or changed
    /// in `other` and a tombstone for each key that only `self` has.
    pub fn diff(&self, other: &Self) -> (r: Self)
        ensures
            r@ == sorted_diff::<T::Key, T::V>(self@, other@),
    {
        proof {
            use_type_invariant(self);
            use_type_invariant(other);
        }
        self.map.ordered();
        other.map.ordered();
        let map = self.map.diff(&other.map);
        proof {
            lemma_sorted_diff::<T::Key, T::V>(self.map@, other.map@);
            lemma_ascending_distinct::<T::Key, Option<T::V>>(map@);
            assert forall|i: int| 0 <= i < map@.len() && (#[trigger] map@[i]).1 is Some implies (
            lookup(other.map@, map@[i].0) == Some(map@[i].1) || lookup(self.map@, map@[i].0)
                == Some(map@[i].1)) by {
                lemma_lookup_at(map@, i);
            }
            lemma_keyed_from::<T>(map@, other.map@, self.map@);
        }
        SortedDeleteSet { map }
    }

    /// `diff` applied to `self`: the items it does not delete, replaced
    /// where it has an item with the same key, and the items it adds. The
    /// result holds no tombstone.
    pub fn merge(&self, diff: &Self) -> (r: Self)
        ensures
            r@ == sorted_merge::<T::Key, T::V>(self@, diff@),
            is_live(r@),
    {
        proof {
            use_type_invariant(self);
            use_type_invariant(diff);
        }
        self.map.ordered();
        diff.map.ordered();
        let map = self.map.merge(&diff.map);
        proof {
            lemma_sorted_merge::<T::Key, T::V>(self.map@, diff.map@);
            lemma_ascending_distinct::<T::Key, Option<T::V>>(map@);
            assert forall|i: int| 0 <= i < map@.len() && (#[trigger] map@[i]).1 is Some implies (
            lookup(diff.map@, map@[i].0) == Some(map@[i].1) || lookup(self.map@, map@[i].0)
                == Some(map@[i].1)) by {
                lemma_lookup_at(map@, i);
            }
            lemma_keyed_from::<T>(map@, diff.map@, self.map@);
        }
        SortedDeleteSet { map }
    }
}

impl<T: Keyed> Datum for SortedDeleteSet<T> {
    fn same(&self, other: &Self) -> (r: bool) {
        self.map.same(&other.map)
    }

    fn dup(&self) -> (r: Self) {
        proof {
            use_type_invariant(self);
        }
        SortedDeleteSet { map: self.map.dup() }
    }
}




/// The live pairs of a sequence without tombstones are its entries, one
/// for one.
pub proof fn lemma_live_pairs_of_live<K, V>(s: Seq<(K, Option<V>)>)
    requires
        is_live(s),
    ensures
        live_pairs(s).len() == s.len(),
        forall|i: int|
            0 <= i < s.len() ==> #[trigger] live_pairs(s)[i] == (s[i].0, s[i].1.unwrap()),
{
    let p = |e: (K, Option<V>)| e.1 is Some;
    crate::assoc::lemma_filter_all(s, p);
}

/// Writing an insertion-order map out and collecting it again gives the
/// same map.
pub proof fn lemma_collected_live_pairs<K, V>(s: Seq<(K, Option<V>)>)
    requires
        distinct_keys(s),
        is_live(s),
    ensures
        collected(live_pairs(s)) == s,
    decreases s.len(),
{
    lemma_live_pairs_of_live(s);
    let p = live_pairs(s);
    if s.len() == 0 {
        assert(s =~= Seq::empty());
    } else {
        let t = s.drop_last();
        assert(distinct_keys(t) && is_live(t)) by {
            assert forall|i: int, j: int| 0 <= i < j < t.len() implies (#[trigger] t[i]).0 != (
            #[trigger] t[j]).0 by {
                assert(s[i].0 != s[j].0);
            }
            assert forall|i: int| 0 <= i < t.len() implies (#[trigger] t[i]).1 is Some by {
                assert(s[i].1 is Some);
            }
        }
        lemma_collected_live_pairs(t);
        lemma_live_pairs_of_live(t);
        assert(p.drop_last() =~= live_pairs(t));
        let e = s.last();
        assert(s[s.len() - 1].1 is Some);
        assert(!has_key(t, e.0)) by {
            if has_key(t, e.0) {
                let i = crate::assoc::position_of(t, e.0);
                assert(s[i].0 != s[s.len() - 1].0);
            }
        }
        assert(p.last() == (e.0, e.1.unwrap()));
        assert(t.push(e) =~= s);
    }
}

/// An ascending sequence without its last entry ascends, and every key in
/// it comes before the last.
proof fn lemma_drop_last_ascending<K: OrdKey, X>(s: Seq<(K::V, X)>)
    requires
        ascending::<K, X>(s),
        s.len() > 0,
    ensures
        ascending::<K, X>(s.drop_last()),
        forall|j: int|
            0 <= j < s.len() - 1 ==> K::before((#[trigger] s.drop_last()[j]).0, s.last().0),
{
    let t = s.drop_last();
    assert forall|i: int, j: int| 0 <= i < j < t.len() implies K::before(
        (#[trigger] t[i]).0,
        (#[trigger] t[j]).0,
    ) by {
        assert(K::before(s[i].0, s[j].0));
    }
    assert forall|j: int| 0 <= j < s.len() - 1 implies K::before((#[trigger] t[j]).0, s.last().0) by {
        assert(K::before(s[j].0, s[s.len() - 1].0));
    }
}

/// Each pair of `s` as a live entry.
pub open spec fn all_live<K, V>(s: Seq<(K, V)>) -> Seq<(K, Option<V>)> {
    s.map_values(|e: (K, V)| (e.0, Some(e.1)))
}

/// The live pairs of pairs that were made live are those pairs.
pub proof fn lemma_live_pairs_of_all_live<K, V>(s: Seq<(K, V)>)
    ensures
        is_live(all_live(s)),
        live_pairs(all_live(s)) == s,
{
    lemma_live_pairs_of_live(all_live(s));
    assert(live_pairs(all_live(s)) =~= s);
}

/// Collecting pairs whose keys are distinct makes each a live entry, in
/// its place.
pub proof fn lemma_collected_of_distinct<K, V>(s: Seq<(K, V)>)
    requires
        distinct_keys(s),
    ensures
        collected(s) == all_live(s),
        distinct_keys(all_live(s)),
{
    crate::assoc::lemma_map_keys(s, |e: (K, V)| (e.0, Some(e.1)));
    lemma_live_pairs_of_all_live(s);
    lemma_collected_live_pairs(all_live(s));
}

/// What collecting pairs with distinct keys into a sort-order map holds:
/// the keys in their order, and under each key its value, live.
pub proof fn lemma_sorted_collected_keys<K: OrdKey, V>(s: Seq<(K::V, V)>)
    requires
        distinct_keys(s),
    ensures
        ascending::<K, Option<V>>(sorted_collected::<K, V>(s)),
        is_live(sorted_collected::<K, V>(s)),
        forall|q: K::V| #[trigger]
            lookup(sorted_collected::<K, V>(s), q) == match lookup(s, q) {
                Some(v) => Some(Some(v)),
                None => None,
            },
    decreases s.len(),
{
    if s.len() > 0 {
        let t = s.drop_last();
        let e = s.last();
        assert(s =~= t.push(e));
        assert(distinct_keys(t)) by {
            assert forall|i: int, j: int| 0 <= i < j < t.len() implies (#[trigger] t[i]).0 != (
            #[trigger] t[j]).0 by {
                assert(s[i].0 != s[j].0);
            }
        }
        assert(!has_key(t, e.0)) by {
            if has_key(t, e.0) {
                let i = crate::assoc::position_of(t, e.0);
                assert(s[i].0 != s[s.len() - 1].0);
            }
        }
        lemma_sorted_collected_keys::<K, V>(t);
        crate::assoc::lemma_push_keys(t, e);
        let c = sorted_collected::<K, V>(t);
        crate::util::ascending::lemma_sorted_insert::<K, Option<V>>(c, e.0, Some(e.1));
        let m = sorted_collected::<K, V>(s);
        crate::util::ascending::lemma_ascending_distinct::<K, Option<V>>(m);
        assert forall|i: int| 0 <= i < m.len() implies (#[trigger] m[i]).1 is Some by {
            crate::assoc::lemma_lookup_at(m, i);
        }
    }
}

/// Collecting one pair gives that pair, live.
pub proof fn lemma_collected_one<K, V>(e: (K, V))
    ensures
        collected(seq![e]) == seq![(e.0, Some(e.1))],
{
    reveal_with_fuel(collected, 2);
    let none = Seq::<(K, Option<V>)>::empty();
    assert(seq![e].drop_last() =~= Seq::<(K, V)>::empty());
    assert(!has_key(none, e.0));
    assert(none.push((e.0, Some(e.1))) =~= seq![(e.0, Some(e.1))]);
}

/// Inserting a key that comes after every key puts it at the end.
pub proof fn lemma_insert_at_end<K: OrdKey, X>(t: Seq<(K::V, X)>, k: K::V, x: X)
    requires
        ascending::<K, X>(t),
        forall|j: int| 0 <= j < t.len() ==> K::before((#[trigger] t[j]).0, k),
    ensures
        sorted_insert::<K, X>(t, k, x) == t.push((k, x)),
{
    lemma_split_at::<K, X>(t, k, t.len() as int);
    assert(t.take(t.len() as int) =~= t);
    assert(t.skip(t.len() as int) =~= Seq::empty());
    assert(t + seq![(k, x)] + Seq::empty() =~= t.push((k, x)));
}

/// Writing a sort-order map out and collecting it again gives the same
/// map.
pub proof fn lemma_sorted_collected_live_pairs<K: OrdKey, V>(s: Seq<(K::V, Option<V>)>)
    requires
        ascending::<K, Option<V>>(s),
        is_live(s),
    ensures
        sorted_collected::<K, V>(live_pairs(s)) == s,
    decreases s.len(),
{
    lemma_live_pairs_of_live(s);
    let p = live_pairs(s);
    if s.len() == 0 {
        assert(s =~= Seq::empty());
    } else {
        let t = s.drop_last();
        let e = s.last();
        lemma_drop_last_ascending::<K, Option<V>>(s);
        assert(is_live(t)) by {
            assert forall|i: int| 0 <= i < t.len() implies (#[trigger] t[i]).1 is Some by {
                assert(s[i].1 is Some);
            }
        }
        lemma_sorted_collected_live_pairs::<K, V>(t);
        assert(p.drop_last() == live_pairs(t)) by {
            lemma_live_pairs_of_live(t);
            assert(p.drop_last() =~= live_pairs(t));
        }
        assert(s[s.len() - 1].1 is Some);
        assert(p.last() == (e.0, e.1.unwrap()));
        assert(Some(p.last().1) == e.1);
        lemma_insert_at_end::<K, Option<V>>(t, e.0, e.1);
        assert(t.push(e) =~= s);
    }
}

/// Writing a set out and collecting its items again gives the same set.
pub proof fn lemma_collected_live_items<T: Keyed>(
    s: Seq<(<T::Key as DeepView>::V, Option<T::V>)>,
)
    requires
        ascending::<T::Key, Option<T::V>>(s),
        is_live(s),
        keyed::<T>(s),
    ensures
        sorted_collected::<T::Key, T::V>(with_keys::<T>(live_items(s))) == s,
{
    lemma_live_pairs_of_live(s);
    lemma_sorted_collected_live_pairs::<T::Key, T::V>(s);
    assert(with_keys::<T>(live_items(s)) =~= live_pairs(s)) by {
        assert forall|i: int| 0 <= i < s.len() implies with_keys::<T>(live_items(s))[i]
            == live_pairs(s)[i] by {
            assert(s[i].1 is Some);
            assert(live_pairs(s)[i] == (s[i].0, s[i].1.unwrap()));
        }
    }
}

} // verus!
