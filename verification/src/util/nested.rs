//! Diff and merge that go down into the values: where a key holds a value
//! on both sides, the diff holds the diff of the two values, and the merge
//! lays it over the value of the base. Parameter lists are compared and
//! merged like this, object by object and list by list.

use crate::aamp::{ListView, ParameterView};
use crate::assoc::{
    distinct_keys, has_key, keys_of, lemma_concat_keys, lemma_filter_agree, lemma_filter_from,
    lemma_filter_keys, lemma_filter_none, lemma_filter_twice, lemma_lookup_at, lemma_map_keys,
    lemma_same_keys_same_values, lookup, position_of,
};
use crate::util::ascending::{
    ascending, lemma_sorted_merge_of_diff_is_other, sorted_diff, sorted_merge,
};
use crate::util::delta::{
    diff_at, is_added, is_changed, is_kept, is_live, is_new, is_removed, is_shared, keeps_order,
    live_value, tombstone,
};
use vstd::prelude::*;

verus! {

/// An entry of `other` as a deep diff holds it: with the diff of its value
/// against that of `base` where `base` has the key, else as it is.
pub open spec fn refined<K, X>(base: Seq<(K, Option<X>)>, inner: spec_fn(X, X) -> X) -> spec_fn(
    (K, Option<X>),
) -> (K, Option<X>) {
    |e: (K, Option<X>)|
        match (live_value(base, e.0), e.1) {
            (Some(b), Some(o)) => (e.0, Some(inner(b, o))),
            _ => e,
        }
}

/// An entry of `base` as a deep merge holds it: with the value of `diff`
/// laid over its own where `diff` has the key, else as it is.
pub open spec fn laid<K, X>(diff: Seq<(K, Option<X>)>, inner: spec_fn(X, X) -> X) -> spec_fn(
    (K, Option<X>),
) -> (K, Option<X>) {
    |e: (K, Option<X>)|
        match (e.1, live_value(diff, e.0)) {
            (Some(b), Some(d)) => (e.0, Some(inner(b, d))),
            _ => e,
        }
}

/// The deep diff from `base` to `other`: the entries of `other` that are
/// new, whole, and those that are changed, as the diff `inner` of the two
/// values, in the order of `other`; then a tombstone for each key that
/// only `base` has, in the order of `base`.
pub open spec fn deep_diff<K, X>(
    base: Seq<(K, Option<X>)>,
    other: Seq<(K, Option<X>)>,
    inner: spec_fn(X, X) -> X,
) -> Seq<(K, Option<X>)> {
    other.filter(is_changed(base)).map_values(refined(base, inner)) + base.filter(
        is_removed(other),
    ).map_values(tombstone())
}

/// The deep diff `diff` applied to `base`: the live entries of `base` that
/// `diff` does not delete, in the order of `base`, each with the value of
/// `diff` laid over it by `inner` where `diff` has the key; then the live
/// entries of `diff` under new keys, in its order.
pub open spec fn deep_merge<K, X>(
    base: Seq<(K, Option<X>)>,
    diff: Seq<(K, Option<X>)>,
    inner: spec_fn(X, X) -> X,
) -> Seq<(K, Option<X>)> {
    base.filter(is_kept(diff)).map_values(laid(diff, inner)) + diff.filter(is_added(base))
}

/// What a deep diff holds under `k`.
pub open spec fn deep_diff_at<K, X>(
    base: Seq<(K, Option<X>)>,
    other: Seq<(K, Option<X>)>,
    inner: spec_fn(X, X) -> X,
    k: K,
) -> Option<Option<X>> {
    match diff_at(base, other, k) {
        Some(Some(o)) => Some(
            Some(
                match live_value(base, k) {
                    Some(b) => inner(b, o),
                    None => o,
                },
            ),
        ),
        x => x,
    }
}

/// What a deep merge holds under `k`.
pub open spec fn deep_merge_at<K, X>(
    base: Seq<(K, Option<X>)>,
    diff: Seq<(K, Option<X>)>,
    inner: spec_fn(X, X) -> X,
    k: K,
) -> Option<Option<X>> {
    match live_value(diff, k) {
        Some(d) => Some(
            Some(
                match live_value(base, k) {
                    Some(b) => inner(b, d),
                    None => d,
                },
            ),
        ),
        None => if lookup(diff, k) == Some(None::<X>) {
            None
        } else if live_value(base, k) is Some {
            Some(live_value(base, k))
        } else {
            None
        },
    }
}

/// A change of the entries that the test does not see may be made before
/// or after the test.
pub proof fn lemma_map_filter_swap<A>(s: Seq<A>, f: spec_fn(A) -> A, p: spec_fn(A) -> bool)
    requires
        forall|a: A| p(#[trigger] f(a)) == p(a),
    ensures
        s.map_values(f).filter(p) == s.filter(p).map_values(f),
    decreases s.len(),
{
    reveal(Seq::filter);
    if s.len() > 0 {
        let t = s.drop_last();
        let e = s.last();
        lemma_map_filter_swap(t, f, p);
        assert(s.map_values(f).drop_last() =~= t.map_values(f));
        assert(s.map_values(f).last() == f(e));
        assert(p(f(e)) == p(e));
        if p(e) {
            assert(t.filter(p).push(e).map_values(f) =~= t.filter(p).map_values(f).push(f(e)));
        }
    } else {
        assert(s.map_values(f) =~= Seq::empty());
        assert(s.filter(p).map_values(f) =~= Seq::empty());
    }
}

/// A deep diff has no key twice, and holds under each key what
/// `deep_diff_at` says.
pub proof fn lemma_deep_diff_keys<K, X>(
    base: Seq<(K, Option<X>)>,
    other: Seq<(K, Option<X>)>,
    inner: spec_fn(X, X) -> X,
)
    requires
        distinct_keys(base),
        distinct_keys(other),
    ensures
        distinct_keys(deep_diff(base, other, inner)),
        forall|k: K| #[trigger]
            lookup(deep_diff(base, other, inner), k) == deep_diff_at(base, other, inner, k),
{
    let c = other.filter(is_changed(base));
    let cm = c.map_values(refined(base, inner));
    let r0 = base.filter(is_removed(other));
    let r = r0.map_values(tombstone());
    lemma_filter_keys(other, is_changed(base));
    lemma_filter_keys(base, is_removed(other));
    assert forall|e: (K, Option<X>)| (#[trigger] refined(base, inner)(e)).0 == e.0 by {}
    lemma_map_keys(c, refined(base, inner));
    lemma_map_keys(r0, tombstone());
    assert forall|k: K| !(has_key(cm, k) && has_key(r, k)) by {
        assert(lookup(c, k) is Some <==> has_key(c, k));
        assert(lookup(r0, k) is Some <==> has_key(r0, k));
    }
    lemma_concat_keys(cm, r);
    assert forall|k: K| #[trigger]
        lookup(deep_diff(base, other, inner), k) == deep_diff_at(base, other, inner, k) by {
        assert(lookup(c, k) is Some <==> has_key(c, k));
        assert(lookup(cm, k) is Some <==> has_key(cm, k));
        assert(lookup(r0, k) is Some <==> has_key(r0, k));
        assert(lookup(r, k) is Some <==> has_key(r, k));
    }
}

/// A deep merge has no key twice and no tombstone, and holds under each
/// key what `deep_merge_at` says.
pub proof fn lemma_deep_merge_keys<K, X>(
    base: Seq<(K, Option<X>)>,
    diff: Seq<(K, Option<X>)>,
    inner: spec_fn(X, X) -> X,
)
    requires
        distinct_keys(base),
        distinct_keys(diff),
    ensures
        distinct_keys(deep_merge(base, diff, inner)),
        is_live(deep_merge(base, diff, inner)),
        forall|k: K| #[trigger]
            lookup(deep_merge(base, diff, inner), k) == deep_merge_at(base, diff, inner, k),
{
    let k0 = base.filter(is_kept(diff));
    let kept = k0.map_values(laid(diff, inner));
    let added = diff.filter(is_added(base));
    lemma_filter_keys(base, is_kept(diff));
    lemma_filter_keys(diff, is_added(base));
    assert forall|e: (K, Option<X>)| (#[trigger] laid(diff, inner)(e)).0 == e.0 by {}
    lemma_map_keys(k0, laid(diff, inner));
    lemma_filter_from(base, is_kept(diff));
    lemma_filter_from(diff, is_added(base));
    assert forall|k: K| !(has_key(kept, k) && has_key(added, k)) by {
        assert(lookup(k0, k) is Some <==> has_key(k0, k));
        assert(lookup(added, k) is Some <==> has_key(added, k));
    }
    lemma_concat_keys(kept, added);
    let m = deep_merge(base, diff, inner);
    assert forall|i: int| 0 <= i < m.len() implies (#[trigger] m[i]).1 is Some by {
        if i < kept.len() {
            assert(is_kept(diff)(k0[i]));
            assert(kept[i] == laid(diff, inner)(k0[i]));
        } else {
            assert(is_added(base)(added[i - kept.len()]));
        }
    }
    assert forall|k: K| #[trigger] lookup(m, k) == deep_merge_at(base, diff, inner, k) by {
        assert(lookup(k0, k) is Some <==> has_key(k0, k));
        assert(lookup(kept, k) is Some <==> has_key(kept, k));
        assert(lookup(added, k) is Some <==> has_key(added, k));
    }
}

/// The diff/merge identity for deep diffs: where `other` keeps the order
/// of `base`, and every changed value comes back from its own diff,
/// merging the deep diff from `base` to `other` onto `base` gives `other`.
pub proof fn lemma_deep_round_trip<K, X>(
    base: Seq<(K, Option<X>)>,
    other: Seq<(K, Option<X>)>,
    diff_of: spec_fn(X, X) -> X,
    merge_of: spec_fn(X, X) -> X,
)
    requires
        distinct_keys(base),
        distinct_keys(other),
        is_live(base),
        is_live(other),
        keeps_order(base, other),
        forall|i: int|
            0 <= i < other.len() ==> match (
                live_value(base, (#[trigger] other[i]).0),
                other[i].1,
            ) {
                (Some(b), Some(o)) => merge_of(b, diff_of(b, o)) == o,
                _ => true,
            },
    ensures
        deep_merge(base, deep_diff(base, other, diff_of), merge_of) == other,
{
    let d = deep_diff(base, other, diff_of);
    let m = deep_merge(base, d, merge_of);
    let c = other.filter(is_changed(base));
    let cm = c.map_values(refined(base, diff_of));
    let r = base.filter(is_removed(other)).map_values(tombstone());
    lemma_deep_diff_keys(base, other, diff_of);
    lemma_deep_merge_keys(base, d, merge_of);
    // the entries of `base` that stay are those whose key `other` has
    assert forall|i: int| 0 <= i < base.len() implies is_kept(d)(#[trigger] base[i]) == is_shared(
        other,
    )(base[i]) by {
        let k = base[i].0;
        lemma_lookup_at(base, i);
        assert(lookup(d, k) == deep_diff_at(base, other, diff_of, k));
        if has_key(other, k) {
            let j = position_of(other, k);
            assert(other[j].1 is Some);
            lemma_lookup_at(other, j);
        }
    }
    lemma_filter_agree(base, is_kept(d), is_shared(other));
    // the entries that the diff adds are those of `other` whose key is new
    Seq::filter_distributes_over_add(cm, r, is_added(base));
    lemma_filter_none(r, is_added(base));
    assert forall|e: (K, Option<X>)|
        is_added(base)(#[trigger] refined(base, diff_of)(e)) == is_added(base)(e) by {}
    lemma_map_filter_swap(c, refined(base, diff_of), is_added(base));
    lemma_filter_twice(other, is_changed(base), is_added(base));
    let both = |e: (K, Option<X>)| is_changed(base)(e) && is_added(base)(e);
    assert forall|i: int| 0 <= i < other.len() implies both(#[trigger] other[i]) == is_new(base)(
        other[i],
    ) by {
        let k = other[i].0;
        assert(other[i].1 is Some);
        if has_key(base, k) {
            let j = position_of(base, k);
            assert(base[j].1 is Some);
            lemma_lookup_at(base, j);
        }
    }
    lemma_filter_agree(other, both, is_new(base));
    let fresh = other.filter(is_new(base));
    lemma_filter_from(other, is_new(base));
    assert(fresh.map_values(refined(base, diff_of)) =~= fresh) by {
        assert forall|i: int| 0 <= i < fresh.len() implies refined(base, diff_of)(fresh[i])
            == fresh[i] by {
            assert(is_new(base)(fresh[i]));
        }
    }
    assert(d.filter(is_added(base)) =~= fresh);
    let kept0 = base.filter(is_shared(other));
    assert(keys_of(kept0.map_values(laid(d, merge_of))) =~= keys_of(kept0));
    assert(keys_of(m) =~= keys_of(kept0) + keys_of(fresh));
    assert forall|k: K| lookup(m, k) == lookup(other, k) by {
        assert(lookup(m, k) == deep_merge_at(base, d, merge_of, k));
        assert(lookup(d, k) == deep_diff_at(base, other, diff_of, k));
        if has_key(other, k) {
            let i = position_of(other, k);
            assert(other[i].1 is Some);
            lemma_lookup_at(other, i);
        }
        if has_key(base, k) {
            let j = position_of(base, k);
            assert(base[j].1 is Some);
            lemma_lookup_at(base, j);
        }
    }
    lemma_same_keys_same_values(m, other);
}

/// What merging a deep diff onto its base holds, for any two values
/// without tombstones: under each key of `other` its value (where `base`
/// holds another value under the key, what the change of that value gives
/// back), and no other key.
pub proof fn lemma_deep_holds<K, X>(
    base: Seq<(K, Option<X>)>,
    other: Seq<(K, Option<X>)>,
    diff_of: spec_fn(X, X) -> X,
    merge_of: spec_fn(X, X) -> X,
)
    requires
        distinct_keys(base),
        distinct_keys(other),
        is_live(base),
        is_live(other),
    ensures
        distinct_keys(deep_merge(base, deep_diff(base, other, diff_of), merge_of)),
        is_live(deep_merge(base, deep_diff(base, other, diff_of), merge_of)),
        forall|k: K| #[trigger]
            lookup(deep_merge(base, deep_diff(base, other, diff_of), merge_of), k) == match (
                live_value(base, k),
                live_value(other, k),
            ) {
                (Some(b), Some(o)) => if b == o {
                    Some(Some(b))
                } else {
                    Some(Some(merge_of(b, diff_of(b, o))))
                },
                (None, Some(o)) => Some(Some(o)),
                (_, None) => None,
            },
{
    let d = deep_diff(base, other, diff_of);
    let m = deep_merge(base, d, merge_of);
    lemma_deep_diff_keys(base, other, diff_of);
    lemma_deep_merge_keys(base, d, merge_of);
    assert forall|k: K| #[trigger] lookup(m, k) == match (
        live_value(base, k),
        live_value(other, k),
    ) {
        (Some(b), Some(o)) => if b == o {
            Some(Some(b))
        } else {
            Some(Some(merge_of(b, diff_of(b, o))))
        },
        (None, Some(o)) => Some(Some(o)),
        (_, None) => None,
    } by {
        assert(lookup(m, k) == deep_merge_at(base, d, merge_of, k));
        assert(lookup(d, k) == deep_diff_at(base, other, diff_of, k));
        if has_key(other, k) {
            let i = position_of(other, k);
            assert(other[i].1 is Some);
            lemma_lookup_at(other, i);
        }
        if has_key(base, k) {
            let j = position_of(base, k);
            assert(base[j].1 is Some);
            lemma_lookup_at(base, j);
        }
    }
}

/// Order preservation: a deep diff that deletes nothing and adds no key
/// leaves the keys of `base` as they were, in the same order.
pub proof fn lemma_deep_merge_keeps_order<K, X>(
    base: Seq<(K, Option<X>)>,
    diff: Seq<(K, Option<X>)>,
    inner: spec_fn(X, X) -> X,
)
    requires
        distinct_keys(base),
        distinct_keys(diff),
        is_live(base),
        is_live(diff),
        forall|k: K| has_key(diff, k) ==> has_key(base, k),
    ensures
        keys_of(deep_merge(base, diff, inner)) == keys_of(base),
{
    assert forall|i: int| 0 <= i < base.len() implies is_kept(diff)(#[trigger] base[i]) by {
        let k = base[i].0;
        if has_key(diff, k) {
            let j = position_of(diff, k);
            assert(diff[j].1 is Some);
            lemma_lookup_at(diff, j);
        }
    }
    crate::assoc::lemma_filter_all(base, is_kept(diff));
    assert forall|i: int| 0 <= i < diff.len() implies !is_added(base)(#[trigger] diff[i]) by {
        let k = diff[i].0;
        assert(has_key(diff, k));
        let j = position_of(base, k);
        assert(base[j].1 is Some);
        lemma_lookup_at(base, j);
    }
    lemma_filter_none(diff, is_added(base));
    assert(keys_of(deep_merge(base, diff, inner)) =~= keys_of(base));
}

/// The deep diff of a value against itself is empty.
pub proof fn lemma_deep_diff_of_same_is_empty<K, X>(
    x: Seq<(K, Option<X>)>,
    inner: spec_fn(X, X) -> X,
)
    requires
        distinct_keys(x),
    ensures
        deep_diff(x, x, inner) == Seq::<(K, Option<X>)>::empty(),
{
    assert forall|i: int| 0 <= i < x.len() implies !is_changed(x)(#[trigger] x[i]) by {
        lemma_lookup_at(x, i);
    }
    assert forall|i: int| 0 <= i < x.len() implies !is_removed(x)(#[trigger] x[i]) by {
        lemma_lookup_at(x, i);
    }
    lemma_filter_none(x, is_changed(x));
    lemma_filter_none(x, is_removed(x));
    assert(deep_diff(x, x, inner) =~= Seq::<(K, Option<X>)>::empty());
}

/// The value of a parameter object.
pub type ObjectView = Seq<(u32, Option<ParameterView>)>;

/// The diff of one object against another, as a function.
pub open spec fn object_diff() -> spec_fn(ObjectView, ObjectView) -> ObjectView {
    |b: ObjectView, o: ObjectView| sorted_diff::<u32, ParameterView>(b, o)
}

/// The merge of a diff onto an object, as a function.
pub open spec fn object_merge() -> spec_fn(ObjectView, ObjectView) -> ObjectView {
    |b: ObjectView, d: ObjectView| sorted_merge::<u32, ParameterView>(b, d)
}

/// The diff of one list against another, as a function.
pub open spec fn whole_diff() -> spec_fn(ListView, ListView) -> ListView {
    |b: ListView, o: ListView| list_diff(b, o)
}

/// The merge of a diff onto a list, as a function.
pub open spec fn whole_merge() -> spec_fn(ListView, ListView) -> ListView {
    |b: ListView, d: ListView| list_merge(b, d)
}

/// The nested lists of `other` that are new against `base`, whole, and
/// those that are changed, each as the diff of the two lists, in the order
/// of `other`.
pub open spec fn lists_changed(
    base: Seq<(u32, Option<ListView>)>,
    other: Seq<(u32, Option<ListView>)>,
) -> Seq<(u32, Option<ListView>)>
    decreases other,
{
    if other.len() == 0 {
        Seq::empty()
    } else {
        let rest = lists_changed(base, other.drop_last());
        let e = other.last();
        if is_changed(base)(e) {
            rest.push(
                match (live_value(base, e.0), e.1) {
                    (Some(b), Some(o)) => (e.0, Some(list_diff(b, o))),
                    _ => e,
                },
            )
        } else {
            rest
        }
    }
}

/// The diff from the list `base` to the list `other`: among the objects
/// and among the nested lists, what is new, whole; what is changed, as its
/// own diff, all the way down; and a tombstone for what only `base` has.
/// What is the same in both is left out.
pub open spec fn list_diff(base: ListView, other: ListView) -> ListView
    decreases other,
{
    ListView {
        objects: deep_diff(base.objects, other.objects, object_diff()),
        lists: lists_changed(base.lists, other.lists) + base.lists.filter(
            is_removed(other.lists),
        ).map_values(tombstone()),
    }
}

/// The live nested lists of `base` that `diff` does not delete, each with
/// the list of `diff` merged onto it where `diff` has the name.
pub open spec fn lists_kept(
    base: Seq<(u32, Option<ListView>)>,
    diff: Seq<(u32, Option<ListView>)>,
) -> Seq<(u32, Option<ListView>)>
    decreases base,
{
    if base.len() == 0 {
        Seq::empty()
    } else {
        let rest = lists_kept(base.drop_last(), diff);
        let e = base.last();
        if is_kept(diff)(e) {
            rest.push(
                match (e.1, live_value(diff, e.0)) {
                    (Some(b), Some(d)) => (e.0, Some(list_merge(b, d))),
                    _ => e,
                },
            )
        } else {
            rest
        }
    }
}

/// `diff` applied to the list `base`: the objects and lists of `base`
/// that `diff` does not delete, each with the entry of the same name in
/// `diff` merged onto it, all the way down, and after them the entries of
/// `diff` under new names. No tombstone is left at this level.
pub open spec fn list_merge(base: ListView, diff: ListView) -> ListView
    decreases base,
{
    ListView {
        objects: deep_merge(base.objects, diff.objects, object_merge()),
        lists: lists_kept(base.lists, diff.lists) + diff.lists.filter(is_added(base.lists)),
    }
}

/// The changed lists are those of a deep diff.
pub proof fn lemma_lists_changed(
    base: Seq<(u32, Option<ListView>)>,
    other: Seq<(u32, Option<ListView>)>,
)
    ensures
        lists_changed(base, other) == other.filter(is_changed(base)).map_values(
            refined(base, whole_diff()),
        ),
    decreases other.len(),
{
    reveal(Seq::filter);
    if other.len() > 0 {
        let t = other.drop_last();
        let e = other.last();
        lemma_lists_changed(base, t);
        let f = t.filter(is_changed(base));
        assert(f.push(e).map_values(refined(base, whole_diff())) =~= f.map_values(
            refined(base, whole_diff()),
        ).push(refined(base, whole_diff())(e)));
    } else {
        assert(other.filter(is_changed(base)).map_values(refined(base, whole_diff()))
            =~= Seq::empty());
    }
}

/// The kept lists are those of a deep merge.
pub proof fn lemma_lists_kept(
    base: Seq<(u32, Option<ListView>)>,
    diff: Seq<(u32, Option<ListView>)>,
)
    ensures
        lists_kept(base, diff) == base.filter(is_kept(diff)).map_values(
            laid(diff, whole_merge()),
        ),
    decreases base.len(),
{
    reveal(Seq::filter);
    if base.len() > 0 {
        let t = base.drop_last();
        let e = base.last();
        lemma_lists_kept(t, diff);
        let f = t.filter(is_kept(diff));
        assert(f.push(e).map_values(laid(diff, whole_merge())) =~= f.map_values(
            laid(diff, whole_merge()),
        ).push(laid(diff, whole_merge())(e)));
    } else {
        assert(base.filter(is_kept(diff)).map_values(laid(diff, whole_merge()))
            =~= Seq::empty());
    }
}

/// The nested lists of a diff and of a merge are a deep diff and a deep
/// merge.
pub proof fn lemma_list_parts(base: ListView, other: ListView)
    ensures
        list_diff(base, other).lists == deep_diff(base.lists, other.lists, whole_diff()),
        list_merge(base, other).lists == deep_merge(base.lists, other.lists, whole_merge()),
{
    lemma_lists_changed(base.lists, other.lists);
    lemma_lists_kept(base.lists, other.lists);
}

/// A materialized list: no name occurs twice among its objects or among
/// its nested lists, the parameters of each object stand in the order of
/// their checksums, and nothing is a tombstone, all the way down.
pub open spec fn list_valid(l: ListView) -> bool
    decreases l,
{
    &&& distinct_keys(l.objects)
    &&& is_live(l.objects)
    &&& forall|i: int|
        0 <= i < l.objects.len() ==> match (#[trigger] l.objects[i]).1 {
            Some(o) => ascending::<u32, Option<ParameterView>>(o) && is_live(o),
            None => true,
        }
    &&& distinct_keys(l.lists)
    &&& is_live(l.lists)
    &&& forall|i: int|
        0 <= i < l.lists.len() ==> match (#[trigger] l.lists[i]).1 {
            Some(x) => list_valid(x),
            None => true,
        }
}

/// `other` keeps the order of `base` at every level: among the objects,
/// among the nested lists, and within each nested list that both have.
pub open spec fn list_keeps_order(base: ListView, other: ListView) -> bool
    decreases other,
{
    &&& keeps_order(base.objects, other.objects)
    &&& keeps_order(base.lists, other.lists)
    &&& forall|i: int|
        0 <= i < other.lists.len() ==> match (
            live_value(base.lists, (#[trigger] other.lists[i]).0),
            other.lists[i].1,
        ) {
            (Some(b), Some(o)) => list_keeps_order(b, o),
            _ => true,
        }
}

/// The diff/merge identity for parameter lists: for materialized lists,
/// where `other` keeps the order of `base` at every level, merging the
/// diff from `base` to `other` onto `base` gives `other`: what was
/// removed is gone, what was changed is changed, what was added is there.
pub proof fn lemma_list_merge_of_diff_is_other(base: ListView, other: ListView)
    requires
        list_valid(base),
        list_valid(other),
        list_keeps_order(base, other),
    ensures
        list_merge(base, list_diff(base, other)) == other,
    decreases other,
{
    let d = list_diff(base, other);
    lemma_list_parts(base, other);
    lemma_list_parts(base, d);
    assert forall|i: int| 0 <= i < other.objects.len() implies match (
        live_value(base.objects, (#[trigger] other.objects[i]).0),
        other.objects[i].1,
    ) {
        (Some(b), Some(o)) => object_merge()(b, object_diff()(b, o)) == o,
        _ => true,
    } by {
        let k = other.objects[i].0;
        if has_key(base.objects, k) {
            let j = position_of(base.objects, k);
            lemma_lookup_at(base.objects, j);
            assert(base.objects[j].1 is Some);
            assert(other.objects[i].1 is Some);
            lemma_sorted_merge_of_diff_is_other::<u32, ParameterView>(
                base.objects[j].1->0,
                other.objects[i].1->0,
            );
        }
    }
    lemma_deep_round_trip(base.objects, other.objects, object_diff(), object_merge());
    assert forall|i: int| 0 <= i < other.lists.len() implies match (
        live_value(base.lists, (#[trigger] other.lists[i]).0),
        other.lists[i].1,
    ) {
        (Some(b), Some(o)) => whole_merge()(b, whole_diff()(b, o)) == o,
        _ => true,
    } by {
        let k = other.lists[i].0;
        if has_key(base.lists, k) {
            let j = position_of(base.lists, k);
            lemma_lookup_at(base.lists, j);
            assert(base.lists[j].1 is Some);
            assert(other.lists[i].1 is Some);
            lemma_list_merge_of_diff_is_other(base.lists[j].1->0, other.lists[i].1->0);
        }
    }
    lemma_deep_round_trip(base.lists, other.lists, whole_diff(), whole_merge());
}

/// Whether two lists hold the same, whatever the order: the same objects
/// under the same names, and the same nested lists under the same names,
/// each alike in this way.
pub open spec fn list_alike(a: ListView, b: ListView) -> bool
    decreases a,
{
    &&& forall|k: u32|
        #![trigger live_value(a.objects, k)]
        match (live_value(a.objects, k), live_value(b.objects, k)) {
            (Some(x), Some(y)) => x == y,
            (None, None) => true,
            _ => false,
        }
    &&& forall|k: u32|
        #![trigger live_value(a.lists, k)]
        live_value(a.lists, k) is Some <==> live_value(b.lists, k) is Some
    &&& forall|i: int|
        0 <= i < a.lists.len() ==> match (
            (#[trigger] a.lists[i]).1,
            live_value(b.lists, a.lists[i].0),
        ) {
            (Some(x), Some(y)) => list_alike(x, y),
            (Some(x), None) => false,
            (None, _) => true,
        }
}

/// A materialized list is like itself.
pub proof fn lemma_list_alike_self(x: ListView)
    requires
        list_valid(x),
    ensures
        list_alike(x, x),
    decreases x,
{
    assert forall|i: int| 0 <= i < x.lists.len() implies match (
        (#[trigger] x.lists[i]).1,
        live_value(x.lists, x.lists[i].0),
    ) {
        (Some(a), Some(b)) => list_alike(a, b),
        (Some(a), None) => false,
        (None, _) => true,
    } by {
        lemma_lookup_at(x.lists, i);
        assert(x.lists[i].1 is Some);
        lemma_list_alike_self(x.lists[i].1->0);
    }
}

/// The diff/merge identity for all materialized parameter lists, whatever
/// their order: merging the diff from `base` to `other` onto `base` gives
/// a materialized list that holds what `other` holds, all the way down:
/// what was removed is gone, what was changed is changed, what was added
/// is there.
pub proof fn lemma_list_merge_of_diff_holds_other(base: ListView, other: ListView)
    requires
        list_valid(base),
        list_valid(other),
    ensures
        list_valid(list_merge(base, list_diff(base, other))),
        list_alike(list_merge(base, list_diff(base, other)), other),
    decreases other,
{
    let d = list_diff(base, other);
    let m = list_merge(base, d);
    lemma_list_parts(base, other);
    lemma_list_parts(base, d);
    lemma_deep_holds(base.objects, other.objects, object_diff(), object_merge());
    lemma_deep_holds(base.lists, other.lists, whole_diff(), whole_merge());
    // what the objects of the merge are
    assert forall|k: u32|
        #![trigger live_value(m.objects, k)]
        match (live_value(m.objects, k), live_value(other.objects, k)) {
            (Some(x), Some(y)) => x == y && ascending::<u32, Option<ParameterView>>(x)
                && is_live(x),
            (None, None) => true,
            _ => false,
        } by {
        assert(lookup(m.objects, k) == match (
            live_value(base.objects, k),
            live_value(other.objects, k),
        ) {
            (Some(b), Some(o)) => if b == o {
                Some(Some(b))
            } else {
                Some(Some(object_merge()(b, object_diff()(b, o))))
            },
            (None, Some(o)) => Some(Some(o)),
            (_, None) => None,
        });
        if has_key(other.objects, k) {
            let i = position_of(other.objects, k);
            lemma_lookup_at(other.objects, i);
            let o = other.objects[i].1->0;
            if has_key(base.objects, k) {
                let j = position_of(base.objects, k);
                lemma_lookup_at(base.objects, j);
                let b = base.objects[j].1->0;
                if b != o {
                    lemma_sorted_merge_of_diff_is_other::<u32, ParameterView>(b, o);
                }
            }
        }
    }
    assert forall|i: int| 0 <= i < m.objects.len() implies match (#[trigger] m.objects[i]).1 {
        Some(o) => ascending::<u32, Option<ParameterView>>(o) && is_live(o),
        None => true,
    } by {
        lemma_lookup_at(m.objects, i);
        assert(live_value(m.objects, m.objects[i].0) == m.objects[i].1);
    }
    // what the nested lists of the merge are
    assert forall|k: u32|
        #![trigger live_value(m.lists, k)]
        match (live_value(m.lists, k), live_value(other.lists, k)) {
            (Some(x), Some(y)) => list_alike(x, y) && list_valid(x),
            (None, None) => true,
            _ => false,
        } by {
        assert(lookup(m.lists, k) == match (
            live_value(base.lists, k),
            live_value(other.lists, k),
        ) {
            (Some(b), Some(o)) => if b == o {
                Some(Some(b))
            } else {
                Some(Some(whole_merge()(b, whole_diff()(b, o))))
            },
            (None, Some(o)) => Some(Some(o)),
            (_, None) => None,
        });
        if has_key(other.lists, k) {
            let i = position_of(other.lists, k);
            lemma_lookup_at(other.lists, i);
            let o = other.lists[i].1->0;
            lemma_list_alike_self(o);
            if has_key(base.lists, k) {
                let j = position_of(base.lists, k);
                lemma_lookup_at(base.lists, j);
                let b = base.lists[j].1->0;
                if b != o {
                    lemma_list_merge_of_diff_holds_other(b, other.lists[i].1->0);
                }
            }
        }
    }
    assert forall|i: int| 0 <= i < m.lists.len() implies match (
        (#[trigger] m.lists[i]).1,
        live_value(other.lists, m.lists[i].0),
    ) {
        (Some(x), Some(y)) => list_alike(x, y) && list_valid(x),
        (Some(x), None) => false,
        (None, _) => true,
    } by {
        lemma_lookup_at(m.lists, i);
        assert(live_value(m.lists, m.lists[i].0) == m.lists[i].1);
    }
}

/// Order preservation for parameter lists: a diff that deletes nothing and
/// adds no name at the top leaves the names of the objects and of the
/// nested lists of `base` as they were, in the same order.
pub proof fn lemma_list_merge_keeps_order(base: ListView, diff: ListView)
    requires
        distinct_keys(base.objects),
        distinct_keys(base.lists),
        distinct_keys(diff.objects),
        distinct_keys(diff.lists),
        is_live(base.objects),
        is_live(base.lists),
        is_live(diff.objects),
        is_live(diff.lists),
        forall|k: u32| has_key(diff.objects, k) ==> has_key(base.objects, k),
        forall|k: u32| has_key(diff.lists, k) ==> has_key(base.lists, k),
    ensures
        keys_of(list_merge(base, diff).objects) == keys_of(base.objects),
        keys_of(list_merge(base, diff).lists) == keys_of(base.lists),
{
    lemma_list_parts(base, diff);
    lemma_deep_merge_keeps_order(base.objects, diff.objects, object_merge());
    lemma_deep_merge_keeps_order(base.lists, diff.lists, whole_merge());
}

/// The diff of a parameter list against itself is empty.
pub proof fn lemma_list_diff_of_same_is_empty(x: ListView)
    requires
        distinct_keys(x.objects),
        distinct_keys(x.lists),
    ensures
        list_diff(x, x) == (ListView { objects: Seq::empty(), lists: Seq::empty() }),
{
    lemma_list_parts(x, x);
    lemma_deep_diff_of_same_is_empty(x.objects, object_diff());
    lemma_deep_diff_of_same_is_empty(x.lists, whole_diff());
}

} // verus!
