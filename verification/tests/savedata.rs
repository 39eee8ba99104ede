use ukmm::byml::Byml;
use ukmm::data::savedata::{Flag, SaveData, SaveDataHeader};
use ukmm::datum::Datum;
use ukmm::prelude::Mergeable;
use ukmm::error::UKError;
use ukmm::util::collections::SortedDeleteSet;

fn header() -> SaveDataHeader {
    SaveDataHeader {
        is_common: false,
        is_common_at_same_account: false,
        is_save_secure_code: true,
        file_name: "game_data.sav".to_owned(),
    }
}

fn savedata(flags: &[&str]) -> SaveData {
    SaveData {
        header: header(),
        flags: SortedDeleteSet::from_items(flags.iter().map(|f| Flag::from_str(f)).collect()),
    }
}

fn load_savedata() -> Byml {
    savedata(&["AlbumPictureIndex", "Clear_Dungeon001", "IsGet_Obj_AmiiboItem"]).to_byml()
}

fn load_mod_savedata() -> Byml {
    savedata(&["AlbumPictureIndex", "IsGet_Obj_AmiiboItem", "Mod_NewFlag", "Mod_OtherFlag"])
        .to_byml()
}

#[test]
fn savedata_diff() {
    let byml = load_savedata();
    let savedata = SaveData::try_from(&byml).unwrap();
    let byml2 = load_mod_savedata();
    let savedata2 = SaveData::try_from(&byml2).unwrap();
    let diff = savedata.diff(&savedata2);
    assert_eq!(diff.flags.len(), 3);
    assert!(diff.flags.contains(&Flag::from_str("Mod_NewFlag")));
    assert!(diff.flags.contains(&Flag::from_str("Mod_OtherFlag")));
    assert!(diff.flags.is_deleted(&Flag::from_str("Clear_Dungeon001")));
    assert!(!diff.flags.contains(&Flag::from_str("AlbumPictureIndex")));
}

#[test]
fn savedata_merge() {
    let byml = load_savedata();
    let savedata = SaveData::try_from(&byml).unwrap();
    let byml2 = load_mod_savedata();
    let savedata2 = SaveData::try_from(&byml2).unwrap();
    let diff = savedata.diff(&savedata2);
    let merged = savedata.merge(&diff);
    assert_eq!(merged, savedata2);
    assert!(merged.flags.is_materialized());
}

#[test]
fn savedata_tree_round_trip() {
    let data = savedata(&["b", "a", "c"]);
    let again = SaveData::try_from(&data.to_byml()).unwrap();
    assert!(again.same(&data));
}

#[test]
fn flags_are_ordered_by_hash() {
    let data = savedata(&["b", "a", "c"]);
    let hashes: Vec<i32> = data.flags.items().iter().map(|f| f.hash()).collect();
    let mut sorted = hashes.clone();
    sorted.sort();
    assert_eq!(hashes, sorted);
    assert_eq!(hashes.len(), 3);
}

#[test]
fn savedata_is_written_with_save_info() {
    let node = savedata(&[]).to_byml();
    let hash = node.as_hash().unwrap();
    assert_eq!(hash[0].0, "file_list");
    assert_eq!(hash[1].0, "save_info");
    let info = hash[1].1.as_array().unwrap()[0].as_hash().unwrap();
    assert_eq!(info[0].0, "directory_num");
    assert!(info[0].1.same(&Byml::Int(8)));
    assert!(info[1].1.same(&Byml::Bool(true)));
    assert!(info[2].1.same(&Byml::Int(18203)));
}

#[test]
fn header_missing_key_is_named() {
    let node = Byml::Hash(vec![
        ("IsCommon".to_owned(), Byml::Bool(true)),
        ("IsCommonAtSameAccount".to_owned(), Byml::Bool(true)),
        ("file_name".to_owned(), Byml::String("x".to_owned())),
    ]);
    assert_eq!(
        SaveDataHeader::try_from(&node).unwrap_err(),
        UKError::MissingBymlKey("bgsvdata header missing IsSaveSecureCode")
    );
}

#[test]
fn header_wrong_type_is_named() {
    let node = Byml::Hash(vec![("IsCommon".to_owned(), Byml::Int(1))]);
    assert_eq!(SaveDataHeader::try_from(&node).unwrap_err(), UKError::WrongBymlType("Bool"));
    assert_eq!(SaveDataHeader::try_from(&Byml::Null).unwrap_err(), UKError::WrongBymlType("Hash"));
}

#[test]
fn savedata_missing_parts_are_named() {
    let empty = Byml::Hash(vec![]);
    assert_eq!(
        SaveData::try_from(&empty).unwrap_err(),
        UKError::MissingBymlKey("bgsvdata missing file_list")
    );
    let no_header = Byml::Hash(vec![("file_list".to_owned(), Byml::Array(vec![]))]);
    assert_eq!(
        SaveData::try_from(&no_header).unwrap_err(),
        UKError::MissingBymlKey("bgsvdata missing header")
    );
    let no_flags =
        Byml::Hash(vec![("file_list".to_owned(), Byml::Array(vec![header().to_byml()]))]);
    assert_eq!(
        SaveData::try_from(&no_flags).unwrap_err(),
        UKError::MissingBymlKey("bgsvdata missing flag array")
    );
    let bad_flag = Byml::Hash(vec![(
        "file_list".to_owned(),
        Byml::Array(vec![
            header().to_byml(),
            Byml::Array(vec![Byml::Hash(vec![(
                "DataName".to_owned(),
                Byml::String("x".to_owned()),
            )])]),
        ]),
    )]);
    assert_eq!(
        SaveData::try_from(&bad_flag).unwrap_err(),
        UKError::MissingBymlKey("bgsvdata missing HashValue")
    );
}

#[test]
fn flag_is_read_as_written() {
    let flag = Flag::from_str("Clear_Dungeon001");
    let again = Flag::try_from(&flag.to_byml()).unwrap();
    assert!(again.same(&flag));
    assert!(again == flag);
    assert!(flag != Flag::from_str("Clear_Dungeon002"));
    assert_eq!(flag.precedes(&again), false);
}

#[test]
fn savedata_path_is_claimed() {
    assert!(SaveData::path_matches("GameData/saveformat_0.bgsvdata"));
    assert!(!SaveData::path_matches("GameData/saveformat_0.bgdata"));
}
