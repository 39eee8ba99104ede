use ukmm::aamp::{Parameter, ParameterList, ParameterObject};
use ukmm::byml::Byml;
use ukmm::datum::Datum;
use ukmm::error::UKError;
use ukmm::util::collections::SortedDeleteMap;
use ukmm::util::{
    collect_pairs, diff_byml_shallow, diff_plist, diff_pobj, merge_byml_shallow, merge_plist,
    merge_pobj, simple_index_diff, simple_index_merge, BymlHashValue,
};

fn object(params: &[(u32, i32)]) -> ParameterObject {
    ParameterObject::from_pairs(params.iter().map(|(k, v)| (*k, Parameter::Int(*v))).collect())
}

fn list(objects: Vec<(u32, ParameterObject)>, lists: Vec<(u32, ParameterList)>) -> ParameterList {
    ParameterList::from_entries(objects, lists)
}

fn slots(object: &ParameterObject) -> Vec<(u32, Option<i32>)> {
    object.0.entries().iter().map(|(k, v)| (*k, v.as_ref().map(|p| p.as_int().unwrap()))).collect()
}

fn names<T>(entries: &[(u32, Option<T>)]) -> Vec<(u32, bool)> {
    entries.iter().map(|(k, v)| (*k, v.is_some())).collect()
}

fn hash(entries: &[(&str, i32)]) -> Byml {
    Byml::Hash(entries.iter().map(|(k, v)| ((*k).to_owned(), Byml::Int(*v))).collect())
}

#[test]
fn object_diff_keeps_what_is_new_or_changed() {
    let base = object(&[(1, 10), (2, 20), (3, 30)]);
    let other = object(&[(3, 30), (2, 21), (4, 40)]);
    let diff = diff_pobj(&base, &other);
    assert_eq!(slots(&diff), vec![(1, None), (2, Some(21)), (4, Some(40))]);
    assert_eq!(diff_pobj(&base, &base).len(), 0);
}

#[test]
fn object_merge_writes_the_diff_over_the_base() {
    let base = object(&[(1, 10), (2, 20), (3, 30)]);
    let diff = object(&[(2, 21), (4, 40)]);
    assert!(merge_pobj(&base, &diff).same(&object(&[(1, 10), (2, 21), (3, 30), (4, 40)])));
    let other = object(&[(1, 10), (2, 21), (3, 30), (4, 40)]);
    assert!(merge_pobj(&base, &diff_pobj(&base, &other)).same(&other));
}

#[test]
fn objects_are_the_same_whatever_the_order_of_arrival() {
    let a = object(&[(1, 10), (2, 20), (3, 30)]);
    let b = object(&[(3, 30), (1, 10), (2, 20)]);
    assert!(a.same(&b));
    assert_eq!(slots(&b), vec![(1, Some(10)), (2, Some(20)), (3, Some(30))]);
    let other = object(&[(4, 40), (3, 31), (1, 10)]);
    let merged = merge_pobj(&a, &diff_pobj(&a, &other));
    assert!(merged.same(&other));
    assert!(merge_pobj(&b, &diff_pobj(&b, &other)).same(&other));
    assert!(!a.same(&object(&[(1, 10), (2, 20)])));
    assert!(!a.same(&object(&[(1, 10), (2, 20), (3, 31)])));
}

#[test]
fn object_merge_takes_out_what_the_diff_deletes() {
    let base = object(&[(1, 10), (2, 20), (3, 30)]);
    let other = object(&[(1, 11), (3, 30), (4, 40)]);
    let diff = diff_pobj(&base, &other);
    assert_eq!(slots(&diff), vec![(1, Some(11)), (2, None), (4, Some(40))]);
    let merged = merge_pobj(&base, &diff);
    assert_eq!(slots(&merged), vec![(1, Some(11)), (3, Some(30)), (4, Some(40))]);
    assert!(merged.same(&other));
}

#[test]
fn collecting_keeps_first_places_and_last_values() {
    let a = vec![(1u32, 'a'), (2, 'b'), (1, 'c')];
    let b = vec![(3u32, 'd'), (2, 'e')];
    assert_eq!(collect_pairs(&a, &b), vec![(1, 'c'), (2, 'e'), (3, 'd')]);
}

#[test]
fn list_diff_goes_down_into_what_changed() {
    let base = list(
        vec![(1, object(&[(1, 1), (2, 2)])), (2, object(&[(1, 1)]))],
        vec![(10, list(vec![(1, object(&[(5, 5)]))], vec![])), (11, list(vec![], vec![]))],
    );
    let other = list(
        vec![(1, object(&[(1, 1), (2, 3)])), (2, object(&[(1, 1)])), (3, object(&[(9, 9)]))],
        vec![
            (10, list(vec![(1, object(&[(5, 6)]))], vec![])),
            (11, list(vec![], vec![])),
            (12, list(vec![(7, object(&[(7, 7)]))], vec![])),
        ],
    );
    let diff = diff_plist(&base, &other);
    let expected = list(
        vec![(1, object(&[(2, 3)])), (3, object(&[(9, 9)]))],
        vec![
            (10, list(vec![(1, object(&[(5, 6)]))], vec![])),
            (12, list(vec![(7, object(&[(7, 7)]))], vec![])),
        ],
    );
    assert!(diff.same(&expected));
    assert!(merge_plist(&base, &diff).same(&other));
    let none = diff_plist(&base, &base);
    assert!(none.objects().is_empty() && none.lists().is_empty());
    assert!(none.same(&ParameterList::new()));
}

#[test]
fn list_diff_holds_a_tombstone_for_what_only_the_base_has() {
    let base = list(
        vec![(1, object(&[(1, 1)])), (2, object(&[(2, 2)]))],
        vec![(10, list(vec![], vec![])), (11, list(vec![(1, object(&[(5, 5)]))], vec![]))],
    );
    let other = list(vec![(1, object(&[(1, 1)]))], vec![(11, list(vec![], vec![]))]);
    let diff = diff_plist(&base, &other);
    assert_eq!(names(diff.objects()), vec![(2, false)]);
    assert_eq!(names(diff.lists()), vec![(11, true), (10, false)]);
    let inner = diff.lists()[0].1.as_ref().unwrap();
    assert_eq!(names(inner.objects()), vec![(1, false)]);
    assert!(inner.lists().is_empty());
    assert!(diff.object_by_hash(2).is_none());
}

#[test]
fn list_merge_removes_what_the_diff_deletes() {
    let base = list(vec![(1, object(&[(1, 1)])), (2, object(&[(2, 2)]))], vec![]);
    let other = list(vec![(1, object(&[(1, 1)]))], vec![]);
    let merged = merge_plist(&base, &diff_plist(&base, &other));
    assert!(merged.same(&other));
    assert!(!merged.same(&base));
    assert_eq!(names(merged.objects()), vec![(1, true)]);
}

#[test]
fn list_merge_of_diff_is_other_all_the_way_down() {
    let base = list(
        vec![(1, object(&[(1, 1), (2, 2)])), (2, object(&[(2, 2)])), (3, object(&[(3, 3)]))],
        vec![
            (10, list(vec![(1, object(&[(5, 5), (6, 6)])), (2, object(&[]))], vec![])),
            (11, list(vec![], vec![(20, list(vec![], vec![]))])),
            (12, list(vec![], vec![])),
        ],
    );
    let other = list(
        vec![(1, object(&[(2, 2), (3, 9)])), (3, object(&[(3, 3)])), (4, object(&[(4, 4)]))],
        vec![
            (10, list(vec![(1, object(&[(6, 7)]))], vec![(30, list(vec![], vec![]))])),
            (11, list(vec![], vec![])),
            (13, list(vec![(1, object(&[(1, 1)]))], vec![])),
        ],
    );
    let diff = diff_plist(&base, &other);
    let merged = merge_plist(&base, &diff);
    assert!(merged.same(&other));
    assert!(merged.equals(&other));
    assert_eq!(names(merged.lists()), vec![(10, true), (11, true), (13, true)]);
}

#[test]
fn shallow_diff_marks_removed_keys_with_null() {
    let base = hash(&[("a", 1), ("b", 2), ("c", 3)]);
    let other = hash(&[("a", 1), ("b", 20), ("d", 4)]);
    let diff = diff_byml_shallow(&base, &other);
    let expected = Byml::Hash(vec![
        ("b".to_owned(), Byml::Int(20)),
        ("d".to_owned(), Byml::Int(4)),
        ("c".to_owned(), Byml::Null),
    ]);
    assert!(diff.same(&expected));
    assert!(diff_byml_shallow(&base, &base).same(&Byml::Hash(vec![])));
}

#[test]
fn shallow_merge_writes_the_diff_over_the_base() {
    let base = hash(&[("a", 1), ("b", 2)]);
    let diff = hash(&[("b", 20), ("d", 4)]);
    assert!(merge_byml_shallow(&base, &diff).same(&hash(&[("a", 1), ("b", 20), ("d", 4)])));
    assert!(merge_byml_shallow(&base, &Byml::Null).same(&base));
}

#[test]
fn shallow_merge_removes_the_keys_that_the_diff_nulls() {
    let base = hash(&[("a", 1), ("b", 2)]);
    let diff = Byml::Hash(vec![("b".to_owned(), Byml::Null)]);
    assert!(merge_byml_shallow(&base, &diff).same(&hash(&[("a", 1)])));
    let other = hash(&[("a", 1), ("c", 3)]);
    let diff = diff_byml_shallow(&base, &other);
    assert!(merge_byml_shallow(&base, &diff).same(&other));
    let gone = Byml::Hash(vec![("x".to_owned(), Byml::Null)]);
    assert!(merge_byml_shallow(&base, &gone).same(&base));
}

#[test]
fn index_maps() {
    let base = SortedDeleteMap::from_pairs(vec![(0usize, 'a'), (1, 'b'), (2, 'c')]);
    let other = SortedDeleteMap::from_pairs(vec![(3usize, 'd'), (0, 'a'), (1, 'x')]);
    let diff = simple_index_diff(&base, &other);
    assert_eq!(diff.entries(), vec![(1, Some('x')), (2, None), (3, Some('d'))]);
    let merged = simple_index_merge(&base, &diff);
    assert_eq!(merged.pairs(), vec![(0, 'a'), (1, 'x'), (3, 'd')]);
    assert!(merged.same(&other));
    assert!(simple_index_diff(&base, &base).is_empty());
}

#[test]
fn hash_values() {
    assert_eq!(BymlHashValue::try_from(&Byml::UInt(7)).unwrap(), BymlHashValue(7));
    assert_eq!(BymlHashValue::try_from(&Byml::Int(-1)).unwrap(), BymlHashValue(0xffff_ffff));
    assert_eq!(
        BymlHashValue::try_from(&Byml::Null).unwrap_err(),
        UKError::WrongBymlType("an integer")
    );
    assert!(BymlHashValue(0x8000_0000).to_byml().same(&Byml::UInt(0x8000_0000)));
    assert!(BymlHashValue(0x8000_0001).to_byml().same(&Byml::Int(-0x7fff_ffff)));
    assert!(BymlHashValue(5).to_byml().same(&Byml::UInt(5)));
    assert_eq!(BymlHashValue::from_i32(-2), BymlHashValue(0xffff_fffe));
    assert_eq!(BymlHashValue::from_u32(9).to_u32(), 9);
    assert_eq!(BymlHashValue(0xffff_fffe).to_i32(), -2);
    assert_eq!(BymlHashValue::from_usize(0x1_0000_0003), BymlHashValue(3));
    for v in [0u32, 1, 0x7fff_ffff, 0x8000_0000, 0x8000_0001, 0xffff_ffff] {
        let h = BymlHashValue(v);
        assert_eq!(BymlHashValue::try_from(&h.to_byml()).unwrap(), h);
    }
}

#[test]
fn error_details() {
    assert_eq!(UKError::MissingBymlKey("x").detail(), "x");
    assert!(UKError::MissingAampKey("x").is_missing_key());
    assert!(!UKError::WrongAampType("Int").is_missing_key());
    assert!(UKError::MissingAampPlace("x", 3).is_missing_key());
    assert_eq!(UKError::MissingAampPlace("x", 3).detail(), "x");
    assert_eq!(UKError::MissingAampPlace("x", 3).place(), Some(3));
    assert_eq!(UKError::MissingAampKey("x").place(), None);
    assert_eq!(UKError::WrongBymlType("Bool").detail(), "Bool");
}

#[test]
fn byml_nodes() {
    let node = Byml::Hash(vec![
        ("a".to_owned(), Byml::Int(1)),
        ("a".to_owned(), Byml::Int(2)),
        ("b".to_owned(), Byml::Array(vec![Byml::Float(1), Byml::Double(2)])),
    ]);
    let hash = node.as_hash().unwrap();
    assert!(ukmm::byml::hash_get(hash, "a").unwrap().same(&Byml::Int(1)));
    assert!(ukmm::byml::hash_get(hash, "c").is_none());
    assert_eq!(node.kind(), "Hash");
    assert_eq!(Byml::Null.kind(), "Null");
    assert!(Byml::Null.is_null());
    assert!(node.copy().equals(&node));
    assert!(!node.equals(&Byml::Hash(vec![])));
    assert!(!Byml::Int(1).equals(&Byml::UInt(1)));
    assert!(!Byml::Float(1).equals(&Byml::Float(2)));
    assert_eq!(node.as_array().unwrap_err(), UKError::WrongBymlType("Array"));
    assert_eq!(Byml::Int(3).as_int().unwrap(), 3);
    assert_eq!(Byml::Bool(true).as_int().unwrap_err(), UKError::WrongBymlType("Int"));
    assert_eq!(Byml::String("s".to_owned()).as_string().unwrap(), "s");
}

#[test]
fn list_merge_of_diff_holds_what_the_other_holds_in_the_order_of_the_base() {
    let base = list(vec![(1, object(&[(1, 1)])), (2, object(&[(2, 2)]))], vec![]);
    let other = list(vec![(2, object(&[(2, 2)])), (1, object(&[(1, 5)]))], vec![]);
    let merged = merge_plist(&base, &diff_plist(&base, &other));
    assert_eq!(names(merged.objects()), vec![(1, true), (2, true)]);
    assert!(merged.object_by_hash(1).unwrap().same(&object(&[(1, 5)])));
    assert!(merged.object_by_hash(2).unwrap().same(&object(&[(2, 2)])));
    assert!(!merged.same(&other));
}

#[test]
fn list_merge_keeps_the_order_of_the_base_where_nothing_is_added() {
    let base = list(
        vec![(3, object(&[(1, 1)])), (1, object(&[(2, 2)])), (2, object(&[(3, 3)]))],
        vec![(9, list(vec![], vec![])), (8, list(vec![(1, object(&[(1, 1)]))], vec![]))],
    );
    let diff = list(
        vec![(2, object(&[(3, 4)])), (3, object(&[(5, 5)]))],
        vec![(8, list(vec![(1, object(&[(1, 2)]))], vec![]))],
    );
    let merged = merge_plist(&base, &diff);
    assert_eq!(names(merged.objects()), vec![(3, true), (1, true), (2, true)]);
    assert_eq!(names(merged.lists()), vec![(9, true), (8, true)]);
    assert_eq!(slots(merged.object_by_hash(3).unwrap()), vec![(1, Some(1)), (5, Some(5))]);
    assert_eq!(slots(merged.object_by_hash(2).unwrap()), vec![(3, Some(4))]);
}

#[test]
fn lists_are_collected_from_their_entries() {
    let l = list(
        vec![(1, object(&[(1, 1)])), (2, object(&[(2, 2)])), (1, object(&[(3, 3)]))],
        vec![(5, list(vec![], vec![])), (5, list(vec![(7, object(&[]))], vec![]))],
    );
    assert_eq!(names(l.objects()), vec![(1, true), (2, true)]);
    assert!(l.object_by_hash(1).unwrap().same(&object(&[(3, 3)])));
    assert_eq!(names(l.lists()), vec![(5, true)]);
    assert_eq!(names(l.lists()[0].1.as_ref().unwrap().objects()), vec![(7, true)]);
    assert!(l.copy().equals(&l));
    assert!(!l.equals(&ParameterList::new()));
    assert!(l.object_by_hash(3).is_none());
}

#[test]
fn shallow_merge_of_diff_is_other() {
    let base = hash(&[("a", 1), ("b", 2), ("c", 3), ("d", 4)]);
    let other = hash(&[("a", 1), ("c", 30), ("e", 5), ("f", 6)]);
    let diff = diff_byml_shallow(&base, &other);
    let expected = Byml::Hash(vec![
        ("c".to_owned(), Byml::Int(30)),
        ("e".to_owned(), Byml::Int(5)),
        ("f".to_owned(), Byml::Int(6)),
        ("b".to_owned(), Byml::Null),
        ("d".to_owned(), Byml::Null),
    ]);
    assert!(diff.same(&expected));
    assert!(merge_byml_shallow(&base, &diff).same(&other));
}

#[test]
fn shallow_merge_leaves_what_the_diff_does_not_touch() {
    let base = Byml::Hash(vec![("a".to_owned(), Byml::Null), ("b".to_owned(), Byml::Int(2))]);
    let diff = hash(&[("b", 3)]);
    let expected = Byml::Hash(vec![("a".to_owned(), Byml::Null), ("b".to_owned(), Byml::Int(3))]);
    assert!(merge_byml_shallow(&base, &diff).same(&expected));
    assert!(merge_byml_shallow(&base, &Byml::Hash(vec![])).same(&base));
    assert!(merge_byml_shallow(&base, &diff_byml_shallow(&base, &base)).same(&base));
    let gone = Byml::Hash(vec![("a".to_owned(), Byml::Null)]);
    assert!(merge_byml_shallow(&base, &gone).same(&hash(&[("b", 2)])));
}
