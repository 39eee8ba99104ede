//! Helpers shared by the resource codecs: the delete-tracking containers,
//! and diff and merge on the generic trees.

pub mod ascending;
pub mod collections;
pub mod delta;
pub mod nested;
pub mod plain;

use crate::aamp::{ParameterList, ParameterObject, ParameterView};
use crate::assoc::{
    first_place, first_value, indexed, is_first, lemma_first_place, lemma_first_value_none, put,
};
use crate::byml::{Byml, BymlView};
use crate::datum::Datum;
use crate::error::UKError;
use crate::util::ascending::{sorted_diff, sorted_merge};
use crate::util::collections::SortedDeleteMap;
use crate::util::delta::is_live;
use crate::util::nested::{list_diff, list_merge};
use vstd::prelude::*;

verus! {

/// The first place at which `entries` holds `key`.
pub fn first_index<K: Datum, X: DeepView>(entries: &Vec<(K, X)>, key: &K) -> (r: Option<usize>)
    ensures
        match r {
            Some(i) => is_first(entries.deep_view(), key.deep_view(), i as int),
            None => first_value(entries.deep_view(), key.deep_view()) is None,
        },
{
    let mut i: usize = 0;
    while i < entries.len()
        invariant
            i <= entries.len(),
            forall|j: int| 0 <= j < i ==> (#[trigger] entries.deep_view()[j]).0 != key.deep_view(),
        decreases entries.len() - i,
    {
        if entries[i].0.same(key) {
            return Some(i);
        }
        i = i + 1;
    }
    proof {
        lemma_first_value_none(entries.deep_view(), key.deep_view());
    }
    None
}

/// Puts `value` under `key`: in the place of the first value under the key
/// where there is one, else at the end.
pub fn put_entry<K: Datum, X: Datum>(entries: &mut Vec<(K, X)>, key: K, value: X)
    ensures
        final(entries).deep_view() == put(
            old(entries).deep_view(),
            key.deep_view(),
            value.deep_view(),
        ),
{
    let ghost before = entries.deep_view();
    match first_index(entries, &key) {
        Some(i) => {
            proof {
                lemma_first_place(before, key.deep_view(), i as int);
            }
            entries.set(i, (key, value));
            proof {
                assert(entries.deep_view() =~= before.update(
                    i as int,
                    (key.deep_view(), value.deep_view()),
                ));
            }
        },
        None => {
            entries.push((key, value));
            proof {
                assert(entries.deep_view() =~= before.push((key.deep_view(), value.deep_view())));
            }
        },
    }
}

/// What collecting the pairs of `a` and then those of `b` into a map
/// leaves.
pub fn collect_pairs<K: Datum, X: Datum>(a: &Vec<(K, X)>, b: &Vec<(K, X)>) -> (out: Vec<(K, X)>)
    ensures
        out.deep_view() == indexed(a.deep_view() + b.deep_view()),
{
    let mut out: Vec<(K, X)> = Vec::new();
    let ghost all = a.deep_view() + b.deep_view();
    let mut i: usize = 0;
    proof {
        assert(out.deep_view() =~= indexed(all.take(0)));
    }
    while i < a.len()
        invariant
            i <= a.len(),
            all == a.deep_view() + b.deep_view(),
            out.deep_view() == indexed(all.take(i as int)),
        decreases a.len() - i,
    {
        proof {
            assert(all.take(i + 1).drop_last() =~= all.take(i as int));
            assert(all.take(i + 1).last() == a.deep_view()[i as int]);
        }
        put_entry(&mut out, a[i].0.dup(), a[i].1.dup());
        i = i + 1;
    }
    let mut j: usize = 0;
    while j < b.len()
        invariant
            j <= b.len(),
            all == a.deep_view() + b.deep_view(),
            out.deep_view() == indexed(all.take(a.len() + j)),
        decreases b.len() - j,
    {
        proof {
            assert(all.take(a.len() + j + 1).drop_last() =~= all.take(a.len() + j));
            assert(all.take(a.len() + j + 1).last() == b.deep_view()[j as int]);
        }
        put_entry(&mut out, b[j].0.dup(), b[j].1.dup());
        j = j + 1;
    }
    proof {
        assert(all.take(a.len() + b.len()) =~= all);
    }
    out
}

/// The test for a pair that `base` lacks or holds with another value.
pub open spec fn differs_from<K, X>(base: Seq<(K, X)>) -> spec_fn((K, X)) -> bool {
    |e: (K, X)| first_value(base, e.0) != Some(e.1)
}

/// The pairs of `other` that `base` lacks or holds with another value.
pub fn changed_pairs<K: Datum, X: Datum>(base: &Vec<(K, X)>, other: &Vec<(K, X)>) -> (out: Vec<
    (K, X),
>)
    ensures
        out.deep_view() == other.deep_view().filter(differs_from(base.deep_view())),
{
    let mut out: Vec<(K, X)> = Vec::new();
    let mut i: usize = 0;
    let ghost b = base.deep_view();
    let ghost o = other.deep_view();
    proof {
        reveal(Seq::filter);
        assert(out.deep_view() =~= o.take(0).filter(differs_from(b)));
    }
    while i < other.len()
        invariant
            i <= other.len(),
            b == base.deep_view(),
            o == other.deep_view(),
            out.deep_view() == o.take(i as int).filter(differs_from(b)),
        decreases other.len() - i,
    {
        let keep = match first_index(base, &other[i].0) {
            None => true,
            Some(j) => {
                proof {
                    lemma_first_place(b, o[i as int].0, j as int);
                }
                !base[j].1.same(&other[i].1)
            },
        };
        proof {
            assert(o.take(i + 1) =~= o.take(i as int).push(o[i as int]));
            o.take(i as int).lemma_filter_push(o[i as int], differs_from(b));
            assert(keep == differs_from(b)(o[i as int]));
        }
        if keep {
            let ghost before = out.deep_view();
            out.push(other[i].dup());
            proof {
                assert(out.deep_view() =~= before.push(o[i as int]));
            }
        }
        i = i + 1;
    }
    proof {
        assert(o.take(i as int) =~= o);
    }
    out
}

/// The diff from the object `base` to the object `other`: the parameters of
/// `other` that are new or changed, and a tombstone for each live
/// parameter of `base` that `other` lacks, in the order of the checksums.
pub fn diff_pobj(base: &ParameterObject, other: &ParameterObject) -> (r: ParameterObject)
    ensures
        r.deep_view() == sorted_diff::<u32, ParameterView>(base.deep_view(), other.deep_view()),
{
    ParameterObject(base.0.diff(&other.0))
}

/// `diff` applied to the object `base`: the live parameters of `base` that
/// `diff` does not delete, each with the value of `diff` where it has one,
/// and the live parameters of `diff` that are new, in the order of the
/// checksums.
pub fn merge_pobj(base: &ParameterObject, diff: &ParameterObject) -> (r: ParameterObject)
    ensures
        r.deep_view() == sorted_merge::<u32, ParameterView>(base.deep_view(), diff.deep_view()),
        is_live(r.deep_view()),
{
    ParameterObject(base.0.merge(&diff.0))
}

/// The diff from the list `base` to the list `other`, all the way down.
/// Among the objects, and among the nested lists: what is new in `other`
/// stands whole, what is changed stands as the diff of the two, both in
/// the order of `other`; then comes a tombstone for each live entry of
/// `base` that `other` lacks.
pub fn diff_plist(base: &ParameterList, other: &ParameterList) -> (r: ParameterList)
    ensures
        r.tree() == list_diff(base.tree(), other.tree()),
{
    base.diff_to(other)
}

/// `diff` applied to the list `base`, all the way down. Among the objects,
/// and among the nested lists: the live entries of `base` that `diff` does
/// not delete, in the order of `base`, each with the entry of `diff`
/// merged onto it where `diff` has the name; then the live entries of
/// `diff` that are new.
pub fn merge_plist(base: &ParameterList, diff: &ParameterList) -> (r: ParameterList)
    ensures
        r.tree() == list_merge(base.tree(), diff.tree()),
{
    base.merged_with(diff)
}

/// The diff between two maps from places to values: the entries of `other`
/// that are new or changed, and a tombstone for each live entry of `base`
/// that `other` lacks, in the order of the places.
pub fn simple_index_diff<T: Datum>(
    base: &SortedDeleteMap<usize, T>,
    other: &SortedDeleteMap<usize, T>,
) -> (r: SortedDeleteMap<usize, T>)
    ensures
        r@ == sorted_diff::<usize, T::V>(base@, other@),
{
    base.diff(other)
}

/// `diff` applied to a map from places to values: the live entries of
/// `base` that `diff` does not delete, each with the value of `diff` where
/// it has one, and the live entries of `diff` that are new, in the order
/// of the places.
pub fn simple_index_merge<T: Datum>(
    base: &SortedDeleteMap<usize, T>,
    diff: &SortedDeleteMap<usize, T>,
) -> (r: SortedDeleteMap<usize, T>)
    ensures
        r@ == sorted_merge::<usize, T::V>(base@, diff@),
        is_live(r@),
{
    base.merge(diff)
}

/// The test for an entry whose key `other` lacks.
pub open spec fn is_missing_from<K, X>(other: Seq<(K, X)>) -> spec_fn((K, X)) -> bool {
    |e: (K, X)| first_value(other, e.0) is None
}

/// An entry's key with a null beside it.
pub open spec fn nulled() -> spec_fn((Seq<char>, BymlView)) -> (Seq<char>, BymlView) {
    |e: (Seq<char>, BymlView)| (e.0, BymlView::Null)
}

/// The shallow diff between two maps: the entries of `other` that `base`
/// lacks or holds with another value, then a null under each key that only
/// `base` has.
pub open spec fn shallow_diff(
    base: Seq<(Seq<char>, BymlView)>,
    other: Seq<(Seq<char>, BymlView)>,
) -> Seq<(Seq<char>, BymlView)> {
    indexed(
        other.filter(differs_from(base)) + base.filter(is_missing_from(other)).map_values(
            nulled(),
        ),
    )
}

/// A null for each entry of `base` whose key `other` lacks.
fn nulled_keys(base: &Vec<(String, Byml)>, other: &Vec<(String, Byml)>) -> (out: Vec<
    (String, Byml),
>)
    ensures
        out.deep_view() == base.deep_view().filter(is_missing_from(other.deep_view())).map_values(
            nulled(),
        ),
{
    let mut out: Vec<(String, Byml)> = Vec::new();
    let mut i: usize = 0;
    let ghost b = base.deep_view();
    let ghost o = other.deep_view();
    proof {
        reveal(Seq::filter);
        assert(out.deep_view() =~= b.take(0).filter(is_missing_from(o)).map_values(nulled()));
    }
    while i < base.len()
        invariant
            i <= base.len(),
            b == base.deep_view(),
            o == other.deep_view(),
            out.deep_view() == b.take(i as int).filter(is_missing_from(o)).map_values(nulled()),
        decreases base.len() - i,
    {
        let gone = first_index(other, &base[i].0).is_none();
        proof {
            assert(b.take(i + 1) =~= b.take(i as int).push(b[i as int]));
            b.take(i as int).lemma_filter_push(b[i as int], is_missing_from(o));
            if !gone {
                crate::assoc::lemma_first_value(o, b[i as int].0, first_place(o, b[i as int].0));
            }
            assert(gone == is_missing_from(o)(b[i as int]));
        }
        if gone {
            let ghost before = out.deep_view();
            out.push((base[i].0.clone(), Byml::Null));
            proof {
                let f = b.take(i as int).filter(is_missing_from(o));
                assert(f.push(b[i as int]).map_values(nulled()) =~= f.map_values(nulled()).push(
                    nulled()(b[i as int]),
                ));
                assert(out.deep_view() =~= before.push(nulled()(b[i as int])));
            }
        }
        i = i + 1;
    }
    proof {
        assert(b.take(i as int) =~= b);
    }
    out
}

/// The shallow diff from the map `base` to the map `other`: the entries of
/// `other` that are new or changed, and a null for each key that is gone.
/// Both must be maps.
pub fn diff_byml_shallow(base: &Byml, other: &Byml) -> (r: Byml)
    requires
        base.tree() is Hash,
        other.tree() is Hash,
    ensures
        r.tree() == BymlView::Hash(shallow_diff(base.tree()->Hash_0, other.tree()->Hash_0)),
{
    match (base, other) {
        (Byml::Hash(b), Byml::Hash(o)) => {
            proof {
                crate::byml::lemma_hash_tree(*b);
                crate::byml::lemma_hash_tree(*o);
            }
            let news = changed_pairs(b, o);
            let gone = nulled_keys(b, o);
            let all = collect_pairs(&news, &gone);
            proof {
                crate::byml::lemma_hash_tree(all);
            }
            Byml::Hash(all)
        },
        _ => {
            proof {
                assert(false);
            }
            Byml::Null
        },
    }
}

/// The test for an entry that `diff` does not remove: one that is not a
/// null under a key of `diff`.
pub open spec fn is_left_by(diff: Seq<(Seq<char>, BymlView)>) -> spec_fn(
    (Seq<char>, BymlView),
) -> bool {
    |e: (Seq<char>, BymlView)| !(e.1 is Null && first_value(diff, e.0) is Some)
}

/// What a shallow merge gives: `base` itself for a null diff; else the
/// entries of `base` and over them those of `diff`, without the keys
/// under which `diff` holds a null.
pub open spec fn shallow_merge(base: Seq<(Seq<char>, BymlView)>, diff: BymlView) -> Seq<
    (Seq<char>, BymlView),
> {
    match diff {
        BymlView::Hash(d) => indexed(base + d).filter(is_left_by(d)),
        _ => base,
    }
}

/// The entries of `all` that `diff` does not remove.
fn left_entries(all: &Vec<(String, Byml)>, diff: &Vec<(String, Byml)>) -> (out: Vec<
    (String, Byml),
>)
    ensures
        out.deep_view() == all.deep_view().filter(is_left_by(diff.deep_view())),
{
    let mut out: Vec<(String, Byml)> = Vec::new();
    let mut i: usize = 0;
    let ghost a = all.deep_view();
    let ghost d = diff.deep_view();
    proof {
        reveal(Seq::filter);
        assert(out.deep_view() =~= a.take(0).filter(is_left_by(d)));
    }
    while i < all.len()
        invariant
            i <= all.len(),
            a == all.deep_view(),
            d == diff.deep_view(),
            out.deep_view() == a.take(i as int).filter(is_left_by(d)),
        decreases all.len() - i,
    {
        proof {
            assert(a.take(i + 1) =~= a.take(i as int).push(a[i as int]));
            a.take(i as int).lemma_filter_push(a[i as int], is_left_by(d));
        }
        let null = match &all[i].1 {
            Byml::Null => true,
            _ => false,
        };
        let removed = null && match first_index(diff, &all[i].0) {
            Some(k) => {
                proof {
                    crate::assoc::lemma_first_value(d, a[i as int].0, k as int);
                }
                true
            },
            None => false,
        };
        if !removed {
            let ghost before = out.deep_view();
            out.push((all[i].0.clone(), all[i].1.copy()));
            proof {
                assert(out.deep_view() =~= before.push(a[i as int]));
            }
        }
        i = i + 1;
    }
    proof {
        assert(a.take(i as int) =~= a);
    }
    out
}

/// The shallow diff `diff` applied to the map `base`: a null of the diff
/// removes its key. `base` must be a map, and `diff` a map or null.
pub fn merge_byml_shallow(base: &Byml, diff: &Byml) -> (r: Byml)
    requires
        base.tree() is Hash,
        diff.tree() is Hash || diff.tree() is Null,
    ensures
        r.tree() == BymlView::Hash(shallow_merge(base.tree()->Hash_0, diff.tree())),
{
    match (base, diff) {
        (Byml::Hash(b), Byml::Hash(d)) => {
            proof {
                crate::byml::lemma_hash_tree(*b);
                crate::byml::lemma_hash_tree(*d);
            }
            let all = left_entries(&collect_pairs(b, d), d);
            proof {
                crate::byml::lemma_hash_tree(all);
            }
            Byml::Hash(all)
        },
        (Byml::Hash(b), _) => base.copy(),
        _ => {
            proof {
                assert(false);
            }
            Byml::Null
        },
    }
}

/// A 32-bit hash as the hierarchical format stores it: written out as an
/// unsigned integer up to 2^31 and as a signed one above it, always the same
/// 32 bits in memory.
#[derive(Debug, Default, Clone, Copy, PartialEq, Eq, Structural, Hash, PartialOrd, Ord)]
pub struct BymlHashValue(pub u32);

/// The 32 bits of `v` read as an unsigned number.
pub open spec fn bits_of(v: i32) -> u32 {
    v as u32
}

/// The 32 bits of `v` read as a signed number.
pub open spec fn signed_of(v: u32) -> i32 {
    v as i32
}

/// The hash that a node holds.
pub open spec fn hash_of_node(v: BymlView) -> Result<BymlHashValue, UKError> {
    match v {
        BymlView::UInt(u) => Ok(BymlHashValue(u)),
        BymlView::Int(i) => Ok(BymlHashValue(bits_of(i))),
        _ => Err(UKError::WrongBymlType("an integer")),
    }
}

/// The node that a hash is written out as.
pub open spec fn node_of_hash(h: BymlHashValue) -> BymlView {
    if h.0 > 0x80000000 {
        BymlView::Int(signed_of(h.0))
    } else {
        BymlView::UInt(h.0)
    }
}

impl BymlHashValue {
    /// The hash in an integer node, signed or unsigned.
    pub fn try_from(value: &Byml) -> (r: Result<Self, UKError>)
        ensures
            r == hash_of_node(value.tree()),
    {
        match value {
            Byml::UInt(v) => Ok(BymlHashValue(*v)),
            Byml::Int(v) => Ok(BymlHashValue(#[verifier::truncate] (*v as u32))),
            _ => Err(UKError::WrongBymlType("an integer")),
        }
    }

    /// The hash with the bits of `val`.
    pub fn from_u32(val: u32) -> (r: Self)
        ensures
            r.0 == val,
    {
        BymlHashValue(val)
    }

    /// The hash with the bits of `val`.
    pub fn from_i32(val: i32) -> (r: Self)
        ensures
            r.0 == bits_of(val),
    {
        BymlHashValue(#[verifier::truncate] (val as u32))
    }

    /// The hash with the low 32 bits of `val`.
    pub fn from_usize(val: usize) -> (r: Self)
        ensures
            r.0 == val as u32,
    {
        BymlHashValue(#[verifier::truncate] (val as u32))
    }

    /// The bits as an unsigned number.
    pub fn to_u32(self) -> (r: u32)
        ensures
            r == self.0,
    {
        self.0
    }

    /// The bits as a signed number.
    pub fn to_i32(self) -> (r: i32)
        ensures
            r == signed_of(self.0),
    {
        #[verifier::truncate]
        (self.0 as i32)
    }

    /// The node that the hash is written out as: signed above 2^31, else
    /// unsigned.
    pub fn to_byml(self) -> (r: Byml)
        ensures
            r.tree() == node_of_hash(self),
    {
        if self.0 > 0x80000000 {
            Byml::Int(#[verifier::truncate] (self.0 as i32))
        } else {
            Byml::UInt(self.0)
        }
    }
}

/// A hash that was written out is read back as it was.
pub proof fn lemma_hash_round_trip(h: BymlHashValue)
    ensures
        hash_of_node(node_of_hash(h)) == Ok::<BymlHashValue, UKError>(h),
{
    let u = h.0;
    assert((u as i32) as u32 == u) by (bit_vector);
}

} // verus!
