use ukmm::datum::{Datum, OrdKey};
use ukmm::data::savedata::Flag;
use ukmm::util::collections::{
    find, find_sorted, lower_bound, DeleteMap, SortedDeleteMap, SortedDeleteSet,
};

fn map(pairs: &[(&str, u32)]) -> DeleteMap<String, u32> {
    DeleteMap::from_pairs(pairs.iter().map(|(k, v)| ((*k).to_owned(), *v)).collect())
}

fn sorted(pairs: &[(&str, u32)]) -> SortedDeleteMap<String, u32> {
    SortedDeleteMap::from_pairs(pairs.iter().map(|(k, v)| ((*k).to_owned(), *v)).collect())
}

fn keys(m: &DeleteMap<String, u32>) -> Vec<String> {
    m.entries().into_iter().map(|e| e.0).collect()
}

fn k(s: &str) -> String {
    s.to_owned()
}

#[test]
fn tombstone_round_trip() {
    let base = map(&[("a", 1), ("b", 2)]);
    let other = map(&[("a", 1)]);
    let diff = base.diff(&other);
    assert_eq!(diff.len(), 1);
    assert!(diff.is_deleted(&k("b")));
    assert!(!diff.contains_key(&k("a")));
    assert!(!diff.is_deleted(&k("a")));
    let merged = base.merge(&diff);
    assert!(merged.same(&other));
    assert_eq!(merged.pairs(), vec![(k("a"), 1)]);
}

#[test]
fn diff_then_merge_gives_the_other() {
    let base = map(&[("a", 1), ("b", 2), ("c", 3), ("d", 4)]);
    let other = map(&[("a", 1), ("c", 30), ("d", 4), ("e", 5), ("f", 6)]);
    let diff = base.diff(&other);
    assert_eq!(
        diff.entries(),
        vec![(k("c"), Some(30)), (k("e"), Some(5)), (k("f"), Some(6)), (k("b"), None)]
    );
    assert!(base.merge(&diff).same(&other));
    let empty = map(&[]);
    assert!(empty.merge(&empty.diff(&other)).same(&other));
    assert!(base.merge(&base.diff(&empty)).same(&empty));
}

#[test]
fn diff_of_same_is_empty() {
    let x = map(&[("a", 1), ("b", 2)]);
    let diff = x.diff(&x);
    assert!(diff.is_empty());
    assert_eq!(diff.len(), 0);
    assert!(x.merge(&diff).same(&x));
    assert!(map(&[]).diff(&map(&[])).is_empty());
}

#[test]
fn merge_keeps_the_order_of_the_base() {
    let base = map(&[("z", 1), ("m", 2), ("a", 3)]);
    let diff = map(&[("a", 30), ("z", 10)]);
    let merged = base.merge(&diff);
    assert_eq!(merged.pairs(), vec![(k("z"), 10), (k("m"), 2), (k("a"), 30)]);
}

#[test]
fn new_keys_come_after_the_old_ones() {
    let base = map(&[("b", 1), ("a", 2)]);
    let other = map(&[("c", 3), ("b", 1), ("a", 2)]);
    let merged = base.merge(&base.diff(&other));
    assert_eq!(keys(&merged), vec!["b", "a", "c"]);
    assert!(!merged.same(&other));
    assert_eq!(merged.get(&k("c")), Some(&3));
}

#[test]
fn insertion_order_is_part_of_the_value() {
    let one = map(&[("a", 1), ("b", 2)]);
    let two = map(&[("b", 2), ("a", 1)]);
    assert!(!one.same(&two));
    assert!(one.same(&one.dup()));
}

#[test]
fn later_diffs_win_where_they_touch_the_same_key() {
    let base = map(&[("a", 1), ("b", 2), ("c", 3)]);
    let first = base.diff(&map(&[("a", 10), ("b", 2), ("c", 3), ("x", 7)]));
    let second = base.diff(&map(&[("a", 20), ("b", 2)]));
    let one_two = base.merge(&first).merge(&second);
    let two_one = base.merge(&second).merge(&first);
    assert_eq!(one_two.pairs(), vec![(k("a"), 20), (k("b"), 2), (k("x"), 7)]);
    assert_eq!(two_one.pairs(), vec![(k("a"), 10), (k("b"), 2), (k("x"), 7)]);
    let third = base.diff(&map(&[("a", 1), ("b", 5), ("c", 3)]));
    assert!(base.merge(&first).merge(&third).same(&base.merge(&third).merge(&first)));
}

#[test]
fn inserting_twice_keeps_the_place() {
    let mut m = map(&[("a", 1), ("b", 2)]);
    m.insert(k("a"), 5);
    m.insert(k("c"), 6);
    assert_eq!(m.pairs(), vec![(k("a"), 5), (k("b"), 2), (k("c"), 6)]);
    assert_eq!(m.len(), 3);
    assert!(m.contains_key(&k("b")));
    assert!(m.is_materialized());
    assert_eq!(map(&[("a", 1), ("a", 2)]).pairs(), vec![(k("a"), 2)]);
}

#[test]
fn merging_over_a_tombstone_brings_the_key_back() {
    let base = map(&[("a", 1), ("b", 2)]);
    let removed = base.diff(&map(&[("a", 1)]));
    assert!(!removed.is_materialized());
    let again = removed.merge(&map(&[("b", 9)]));
    assert_eq!(again.pairs(), vec![(k("b"), 9)]);
    assert!(again.is_materialized());
}

#[test]
fn sorted_maps_keep_the_order_of_the_keys() {
    let m = sorted(&[("m", 1), ("a", 2), ("z", 3), ("b", 4)]);
    assert_eq!(m.pairs(), vec![(k("a"), 2), (k("b"), 4), (k("m"), 1), (k("z"), 3)]);
    assert!(m.same(&sorted(&[("z", 3), ("b", 4), ("a", 2), ("m", 1)])));
    assert_eq!(m.get(&k("m")), Some(&1));
    assert_eq!(m.get(&k("n")), None);
    assert_eq!(sorted(&[("a", 1), ("a", 2)]).pairs(), vec![(k("a"), 2)]);
}

#[test]
fn sorted_diff_then_merge_gives_the_other() {
    let base = sorted(&[("d", 4), ("a", 1), ("c", 3), ("b", 2)]);
    let other = sorted(&[("e", 5), ("c", 30), ("a", 1), ("0", 9)]);
    let diff = base.diff(&other);
    assert_eq!(
        diff.entries(),
        vec![(k("0"), Some(9)), (k("b"), None), (k("c"), Some(30)), (k("d"), None), (k("e"), Some(5))]
    );
    assert!(base.merge(&diff).same(&other));
    assert!(base.diff(&base).is_empty());
    assert!(diff.is_deleted(&k("b")));
    assert!(!diff.is_materialized());
}

#[test]
fn strings_are_ordered_by_their_bytes() {
    for (a, b) in [("a", "b"), ("", "a"), ("a", "aa"), ("Z", "a"), ("ab", "b"), ("é", "z\u{7ff}")] {
        assert_eq!(k(a).precedes(&k(b)), a < b);
        assert_eq!(k(b).precedes(&k(a)), b < a);
        assert!(!k(a).precedes(&k(a)));
    }
    assert!(3u32.precedes(&4));
    assert!((-3i32).precedes(&2));
    assert!(!5usize.precedes(&5));
}

fn flags(names: &[&str]) -> SortedDeleteSet<Flag> {
    SortedDeleteSet::from_items(names.iter().map(|n| Flag::from_str(n)).collect())
}

#[test]
fn sets_find_items_by_their_keys() {
    let base = flags(&["c", "a", "b"]);
    let hashes: Vec<i32> = base.items().iter().map(|f| f.hash()).collect();
    let mut ordered = hashes.clone();
    ordered.sort();
    assert_eq!(hashes, ordered);
    assert!(base.contains(&Flag::from_str("b")));
    assert!(!base.contains(&Flag::from_str("d")));
    let other = flags(&["a", "d"]);
    let diff = base.diff(&other);
    assert_eq!(diff.len(), 3);
    assert!(diff.is_deleted(&Flag::from_str("b")));
    assert!(diff.is_deleted(&Flag::from_str("c")));
    assert!(diff.contains(&Flag::from_str("d")));
    assert!(!diff.contains(&Flag::from_str("a")));
    assert!(base.merge(&diff).same(&other));
    assert!(base.diff(&base).is_empty());
    assert_eq!(flags(&["a", "a"]).len(), 1);
}

#[test]
fn lookups() {
    let entries = vec![(1u32, 'a'), (4, 'b'), (9, 'c')];
    assert_eq!(find(&entries, &4), Some(1));
    assert_eq!(find(&entries, &5), None);
    assert_eq!(find_sorted(&entries, &9), Some(2));
    assert_eq!(find_sorted(&entries, &0), None);
    assert_eq!(lower_bound(&entries, &0), 0);
    assert_eq!(lower_bound(&entries, &4), 1);
    assert_eq!(lower_bound(&entries, &5), 2);
    assert_eq!(lower_bound(&entries, &10), 3);
}
