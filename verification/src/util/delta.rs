//! What diff and merge mean on delete-tracking association sequences, and
//! the laws that relate them.
//!
//! An entry is a key with `Some(value)`, a live entry, or with `None`, a
//! tombstone that says the key was deleted.

use crate::assoc::{
    assoc_map,
    distinct_keys, has_key, keys_of, lemma_concat_keys, lemma_filter_agree, lemma_filter_all,
    lemma_filter_from, lemma_filter_keys, lemma_filter_none, lemma_filter_twice, lemma_map_keys,
    lemma_same_keys_same_values, lookup,
};
use vstd::prelude::*;

verus! {

/// The live value under `k`, if `s` has one.
pub open spec fn live_value<K, V>(s: Seq<(K, Option<V>)>, k: K) -> Option<V> {
    match lookup(s, k) {
        Some(Some(v)) => Some(v),
        _ => None,
    }
}

/// `s` holds no tombstone.
pub open spec fn is_live<K, V>(s: Seq<(K, Option<V>)>) -> bool {
    forall|i: int| 0 <= i < s.len() ==> (#[trigger] s[i]).1 is Some
}

/// The test for an entry that is new against `base` or differs from it.
pub open spec fn is_changed<K, V>(base: Seq<(K, Option<V>)>) -> spec_fn((K, Option<V>)) -> bool {
    |e: (K, Option<V>)| e.1 is Some && live_value(base, e.0) != e.1
}

/// The test for a live entry whose key `other` no longer has.
pub open spec fn is_removed<K, V>(other: Seq<(K, Option<V>)>) -> spec_fn((K, Option<V>)) -> bool {
    |e: (K, Option<V>)| e.1 is Some && live_value(other, e.0) is None
}

/// An entry's tombstone.
pub open spec fn tombstone<K, V>() -> spec_fn((K, Option<V>)) -> (K, Option<V>) {
    |e: (K, Option<V>)| (e.0, None::<V>)
}

/// The diff from `base` to `other`: the entries of `other` that are new or
/// changed, in the order of `other`, then a tombstone for each key that only
/// `base` has, in the order of `base`.
pub open spec fn delete_diff<K, V>(base: Seq<(K, Option<V>)>, other: Seq<(K, Option<V>)>) -> Seq<
    (K, Option<V>),
> {
    other.filter(is_changed(base)) + base.filter(is_removed(other)).map_values(tombstone())
}

/// The test for a live entry that `diff` does not delete.
pub open spec fn is_kept<K, V>(diff: Seq<(K, Option<V>)>) -> spec_fn((K, Option<V>)) -> bool {
    |e: (K, Option<V>)| e.1 is Some && lookup(diff, e.0) != Some(None::<V>)
}

/// An entry with the value that `diff` gives its key, if it gives one.
pub open spec fn overwritten<K, V>(diff: Seq<(K, Option<V>)>) -> spec_fn((K, Option<V>)) -> (
    K,
    Option<V>,
) {
    |e: (K, Option<V>)|
        (
            e.0,
            match live_value(diff, e.0) {
                Some(v) => Some(v),
                None => e.1,
            },
        )
}

/// The test for a live entry whose key `base` lacks.
pub open spec fn is_added<K, V>(base: Seq<(K, Option<V>)>) -> spec_fn((K, Option<V>)) -> bool {
    |e: (K, Option<V>)| e.1 is Some && live_value(base, e.0) is None
}

/// `diff` applied to `base`: the live entries of `base` that `diff` does not
/// delete, in the order of `base`, each with the value of `diff` where it has
/// one, then the live entries of `diff` whose keys are new, in its order.
pub open spec fn delete_merge<K, V>(base: Seq<(K, Option<V>)>, diff: Seq<(K, Option<V>)>) -> Seq<
    (K, Option<V>),
> {
    base.filter(is_kept(diff)).map_values(overwritten(diff)) + diff.filter(is_added(base))
}

/// What a diff holds under `k`.
pub open spec fn diff_at<K, V>(base: Seq<(K, Option<V>)>, other: Seq<(K, Option<V>)>, k: K)
    -> Option<Option<V>> {
    if live_value(other, k) is Some {
        if live_value(base, k) == live_value(other, k) {
            None
        } else {
            Some(live_value(other, k))
        }
    } else if live_value(base, k) is Some {
        Some(None)
    } else {
        None
    }
}

/// What a merge holds under `k`.
pub open spec fn merge_at<K, V>(base: Seq<(K, Option<V>)>, diff: Seq<(K, Option<V>)>, k: K)
    -> Option<Option<V>> {
    if live_value(diff, k) is Some {
        Some(live_value(diff, k))
    } else if lookup(diff, k) == Some(None::<V>) {
        None
    } else if live_value(base, k) is Some {
        Some(live_value(base, k))
    } else {
        None
    }
}

/// A diff has no key twice, and holds under each key what `diff_at` says.
pub proof fn lemma_diff_keys<K, V>(base: Seq<(K, Option<V>)>, other: Seq<(K, Option<V>)>)
    requires
        distinct_keys(base),
        distinct_keys(other),
    ensures
        distinct_keys(delete_diff(base, other)),
        forall|k: K| #[trigger] lookup(delete_diff(base, other), k) == diff_at(base, other, k),
{
    let c = other.filter(is_changed(base));
    let r0 = base.filter(is_removed(other));
    let r = r0.map_values(tombstone());
    lemma_filter_keys(other, is_changed(base));
    lemma_filter_keys(base, is_removed(other));
    lemma_map_keys(r0, tombstone());
    assert forall|k: K| !(has_key(c, k) && has_key(r, k)) by {
        assert(lookup(c, k) is Some <==> has_key(c, k));
        assert(lookup(r, k) is Some <==> has_key(r, k));
    }
    lemma_concat_keys(c, r);
    assert forall|k: K| #[trigger] lookup(delete_diff(base, other), k) == diff_at(
        base,
        other,
        k,
    ) by {
        assert(lookup(c, k) is Some <==> has_key(c, k));
        assert(lookup(r, k) is Some <==> has_key(r, k));
    }
}

/// A merge has no key twice and no tombstone, and holds under each key what
/// `merge_at` says.
pub proof fn lemma_merge_keys<K, V>(base: Seq<(K, Option<V>)>, diff: Seq<(K, Option<V>)>)
    requires
        distinct_keys(base),
        distinct_keys(diff),
    ensures
        distinct_keys(delete_merge(base, diff)),
        is_live(delete_merge(base, diff)),
        forall|k: K| #[trigger] lookup(delete_merge(base, diff), k) == merge_at(base, diff, k),
{
    let k0 = base.filter(is_kept(diff));
    let kept = k0.map_values(overwritten(diff));
    let added = diff.filter(is_added(base));
    lemma_filter_keys(base, is_kept(diff));
    lemma_filter_keys(diff, is_added(base));
    lemma_map_keys(k0, overwritten(diff));
    lemma_filter_from(base, is_kept(diff));
    lemma_filter_from(diff, is_added(base));
    assert forall|k: K| !(has_key(kept, k) && has_key(added, k)) by {
        assert(lookup(kept, k) is Some <==> has_key(kept, k));
        assert(lookup(added, k) is Some <==> has_key(added, k));
    }
    lemma_concat_keys(kept, added);
    let m = delete_merge(base, diff);
    assert forall|i: int| 0 <= i < m.len() implies (#[trigger] m[i]).1 is Some by {
        if i < kept.len() {
            assert(is_kept(diff)(k0[i]));
            assert(kept[i] == overwritten(diff)(k0[i]));
        } else {
            assert(is_added(base)(added[i - kept.len()]));
        }
    }
    assert forall|k: K| #[trigger] lookup(m, k) == merge_at(base, diff, k) by {
        assert(lookup(kept, k) is Some <==> has_key(kept, k));
        assert(lookup(added, k) is Some <==> has_key(added, k));
    }
}


/// The test for an entry whose key `other` has.
pub open spec fn is_shared<K, V>(other: Seq<(K, Option<V>)>) -> spec_fn((K, Option<V>)) -> bool {
    |e: (K, Option<V>)| has_key(other, e.0)
}

/// The test for an entry whose key `base` lacks.
pub open spec fn is_new<K, V>(base: Seq<(K, Option<V>)>) -> spec_fn((K, Option<V>)) -> bool {
    |e: (K, Option<V>)| !has_key(base, e.0)
}

/// `other` lists the keys it shares with `base` first and in the order of
/// `base`, and after them the keys that `base` lacks.
pub open spec fn keeps_order<K, V>(base: Seq<(K, Option<V>)>, other: Seq<(K, Option<V>)>) -> bool {
    keys_of(other) == keys_of(base.filter(is_shared(other))) + keys_of(other.filter(is_new(base)))
}

/// The diff of a value against itself is empty: it holds no entry and no
/// tombstone.
pub proof fn lemma_diff_of_same_is_empty<K, V>(x: Seq<(K, Option<V>)>)
    requires
        distinct_keys(x),
    ensures
        delete_diff(x, x) == Seq::<(K, Option<V>)>::empty(),
{
    assert forall|i: int| 0 <= i < x.len() implies !is_changed(x)(#[trigger] x[i]) by {
        crate::assoc::lemma_lookup_at(x, i);
    }
    assert forall|i: int| 0 <= i < x.len() implies !is_removed(x)(#[trigger] x[i]) by {
        crate::assoc::lemma_lookup_at(x, i);
    }
    lemma_filter_none(x, is_changed(x));
    lemma_filter_none(x, is_removed(x));
    assert(delete_diff(x, x) =~= Seq::<(K, Option<V>)>::empty());
}

/// Merging the diff from `base` to `other` onto `base` gives the contents of
/// `other`: the same keys, each with the same value, and no tombstone.
pub proof fn lemma_merge_of_diff_holds_other<K, V>(
    base: Seq<(K, Option<V>)>,
    other: Seq<(K, Option<V>)>,
)
    requires
        distinct_keys(base),
        distinct_keys(other),
        is_live(other),
    ensures
        distinct_keys(delete_merge(base, delete_diff(base, other))),
        is_live(delete_merge(base, delete_diff(base, other))),
        forall|k: K| #[trigger]
            lookup(delete_merge(base, delete_diff(base, other)), k) == lookup(other, k),
        assoc_map(delete_merge(base, delete_diff(base, other))) == assoc_map(other),
{
    let d = delete_diff(base, other);
    let m = delete_merge(base, d);
    lemma_diff_keys(base, other);
    lemma_merge_keys(base, d);
    assert forall|k: K| #[trigger] lookup(m, k) == lookup(other, k) by {
        assert(lookup(m, k) == merge_at(base, d, k));
        assert(lookup(d, k) == diff_at(base, other, k));
        if has_key(other, k) {
            let i = crate::assoc::position_of(other, k);
            assert(other[i].1 is Some);
            crate::assoc::lemma_lookup_at(other, i);
        }
    }
    assert(assoc_map(m) =~= assoc_map(other)) by {
        assert forall|k: K| has_key(m, k) <==> has_key(other, k) by {
            assert(lookup(m, k) == lookup(other, k));
        }
    }
}

/// The diff/merge identity: where `other` keeps the order of `base`, merging
/// the diff from `base` to `other` onto `base` gives `other` itself.
pub proof fn lemma_merge_of_diff_is_other<K, V>(
    base: Seq<(K, Option<V>)>,
    other: Seq<(K, Option<V>)>,
)
    requires
        distinct_keys(base),
        distinct_keys(other),
        is_live(base),
        is_live(other),
        keeps_order(base, other),
    ensures
        delete_merge(base, delete_diff(base, other)) == other,
{
    let d = delete_diff(base, other);
    let m = delete_merge(base, d);
    let c = other.filter(is_changed(base));
    let r = base.filter(is_removed(other)).map_values(tombstone());
    lemma_diff_keys(base, other);
    lemma_merge_of_diff_holds_other(base, other);
    // the entries of `base` that stay are those whose key `other` has
    assert forall|i: int| 0 <= i < base.len() implies is_kept(d)(#[trigger] base[i]) == is_shared(
        other,
    )(base[i]) by {
        let k = base[i].0;
        crate::assoc::lemma_lookup_at(base, i);
        assert(lookup(d, k) == diff_at(base, other, k));
        if has_key(other, k) {
            let j = crate::assoc::position_of(other, k);
            assert(other[j].1 is Some);
            crate::assoc::lemma_lookup_at(other, j);
        }
    }
    lemma_filter_agree(base, is_kept(d), is_shared(other));
    // the entries that the diff adds are those of `other` whose key is new
    Seq::filter_distributes_over_add(c, r, is_added(base));
    lemma_filter_none(r, is_added(base));
    lemma_filter_twice(other, is_changed(base), is_added(base));
    let both = |e: (K, Option<V>)| is_changed(base)(e) && is_added(base)(e);
    assert forall|i: int| 0 <= i < other.len() implies both(#[trigger] other[i]) == is_new(base)(
        other[i],
    ) by {
        let k = other[i].0;
        assert(other[i].1 is Some);
        if has_key(base, k) {
            let j = crate::assoc::position_of(base, k);
            assert(base[j].1 is Some);
            crate::assoc::lemma_lookup_at(base, j);
        }
    }
    lemma_filter_agree(other, both, is_new(base));
    assert(d.filter(is_added(base)) =~= other.filter(is_new(base)));
    let kept0 = base.filter(is_shared(other));
    assert(keys_of(kept0.map_values(overwritten(d))) =~= keys_of(kept0));
    assert(keys_of(m) =~= keys_of(kept0) + keys_of(other.filter(is_new(base))));
    lemma_same_keys_same_values(m, other);
}

/// Order preservation: a diff that deletes nothing and adds no key leaves
/// the keys of `base` as they were, in the same order.
pub proof fn lemma_merge_keeps_order<K, V>(base: Seq<(K, Option<V>)>, diff: Seq<(K, Option<V>)>)
    requires
        distinct_keys(base),
        distinct_keys(diff),
        is_live(base),
        is_live(diff),
        forall|k: K| has_key(diff, k) ==> has_key(base, k),
    ensures
        keys_of(delete_merge(base, diff)) == keys_of(base),
{
    assert forall|i: int| 0 <= i < base.len() implies is_kept(diff)(#[trigger] base[i]) by {
        let k = base[i].0;
        if has_key(diff, k) {
            let j = crate::assoc::position_of(diff, k);
            assert(diff[j].1 is Some);
            crate::assoc::lemma_lookup_at(diff, j);
        }
    }
    lemma_filter_all(base, is_kept(diff));
    assert forall|i: int| 0 <= i < diff.len() implies !is_added(base)(#[trigger] diff[i]) by {
        let k = diff[i].0;
        assert(has_key(diff, k));
        let j = crate::assoc::position_of(base, k);
        assert(base[j].1 is Some);
        crate::assoc::lemma_lookup_at(base, j);
    }
    lemma_filter_none(diff, is_added(base));
    assert(keys_of(delete_merge(base, diff)) =~= keys_of(base));
}


/// Last applied wins: after two diffs were merged one after the other, a
/// key that the second diff touches holds what the second diff says,
/// whatever the first said.
pub proof fn lemma_last_diff_wins<K, V>(
    base: Seq<(K, Option<V>)>,
    first: Seq<(K, Option<V>)>,
    second: Seq<(K, Option<V>)>,
    k: K,
)
    requires
        distinct_keys(base),
        distinct_keys(first),
        distinct_keys(second),
        has_key(second, k),
    ensures
        live_value(delete_merge(delete_merge(base, first), second), k) == live_value(second, k),
{
    lemma_merge_keys(base, first);
    lemma_merge_keys(delete_merge(base, first), second);
    let m = delete_merge(delete_merge(base, first), second);
    assert(lookup(m, k) == merge_at(delete_merge(base, first), second, k));
}

/// Two diffs that touch no key in common may be merged in either order:
/// the result holds the same value under every key.
pub proof fn lemma_separate_diffs_commute<K, V>(
    base: Seq<(K, Option<V>)>,
    first: Seq<(K, Option<V>)>,
    second: Seq<(K, Option<V>)>,
)
    requires
        distinct_keys(base),
        distinct_keys(first),
        distinct_keys(second),
        forall|k: K| !(has_key(first, k) && has_key(second, k)),
    ensures
        assoc_map(delete_merge(delete_merge(base, first), second)) == assoc_map(
            delete_merge(delete_merge(base, second), first),
        ),
{
    let a = delete_merge(base, first);
    let b = delete_merge(base, second);
    let ab = delete_merge(a, second);
    let ba = delete_merge(b, first);
    lemma_merge_keys(base, first);
    lemma_merge_keys(base, second);
    lemma_merge_keys(a, second);
    lemma_merge_keys(b, first);
    assert forall|k: K| lookup(ab, k) == lookup(ba, k) by {
        assert(lookup(ab, k) == merge_at(a, second, k));
        assert(lookup(ba, k) == merge_at(b, first, k));
        assert(lookup(a, k) == merge_at(base, first, k));
        assert(lookup(b, k) == merge_at(base, second, k));
        assert(!(has_key(first, k) && has_key(second, k)));
        assert(lookup(first, k) is Some <==> has_key(first, k));
        assert(lookup(second, k) is Some <==> has_key(second, k));
    }
    assert(assoc_map(ab) =~= assoc_map(ba)) by {
        assert forall|k: K| has_key(ab, k) <==> has_key(ba, k) by {
            assert(lookup(ab, k) == lookup(ba, k));
        }
    }
}

} // verus!
