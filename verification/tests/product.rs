use ukmm::byml::Byml;
use ukmm::datum::Datum;
use ukmm::prelude::Mergeable;
use ukmm::error::UKError;
use ukmm::quest::product::QuestProduct;
use ukmm::tips::Tips;

fn entry(key: &str, name: &str, step: i32) -> Byml {
    Byml::Hash(vec![
        (key.to_owned(), Byml::String(name.to_owned())),
        ("Step".to_owned(), Byml::Int(step)),
    ])
}

fn load_quests() -> Byml {
    Byml::Array(vec![
        entry("Name", "Npc_Road_006", 1),
        entry("Name", "Find_4Relic", 2),
        entry("Name", "AncientBall_Kakariko", 3),
    ])
}

fn load_mod_quests() -> Byml {
    Byml::Array(vec![
        entry("Name", "Npc_Road_006", 1),
        entry("Name", "AncientBall_Kakariko", 30),
        entry("Name", "Mod_Quest", 4),
    ])
}

fn load_tips() -> Byml {
    Byml::Array(vec![
        entry("MessageId", "TipsWorld_05", 5),
        entry("MessageId", "TipsWorld_01", 1),
        entry("MessageId", "TipsWorld_03", 3),
    ])
}

fn load_mod_tips() -> Byml {
    Byml::Array(vec![
        entry("MessageId", "TipsWorld_07", 7),
        entry("MessageId", "TipsWorld_01", 10),
        entry("MessageId", "TipsWorld_05", 5),
    ])
}

#[test]
fn product_diff() {
    let byml = load_quests();
    let quests = QuestProduct::try_from(&byml).unwrap();
    let byml2 = load_mod_quests();
    let quests2 = QuestProduct::try_from(&byml2).unwrap();
    let diff = quests.diff(&quests2);
    let entries = diff.0.entries();
    assert_eq!(entries.len(), 3);
    assert_eq!(entries[0].0, "AncientBall_Kakariko");
    assert!(entries[0].1.as_ref().unwrap().same(&entry("Name", "AncientBall_Kakariko", 30)));
    assert_eq!(entries[1].0, "Mod_Quest");
    assert!(entries[1].1.is_some());
    assert_eq!(entries[2].0, "Find_4Relic");
    assert!(entries[2].1.is_none());
}

#[test]
fn product_merge() {
    let byml = load_quests();
    let quests = QuestProduct::try_from(&byml).unwrap();
    let byml2 = load_mod_quests();
    let quests2 = QuestProduct::try_from(&byml2).unwrap();
    let diff = quests.diff(&quests2);
    let merged = quests.merge(&diff);
    assert_eq!(merged, quests2);
}

#[test]
fn product_identify() {
    let path = "content/Pack/TitleBG.pack//Quest/QuestProduct.sbquestpack";
    assert!(QuestProduct::path_matches(path));
    assert!(!QuestProduct::path_matches("content/Pack/TitleBG.pack//Quest/Quests.sbquestpack"));
    assert_eq!(QuestProduct::path(), "Pack/TitleBG.pack//Quest/QuestProduct.sbquestpack");
}

#[test]
fn product_merge_puts_reordered_quests_in_base_order() {
    let quests = QuestProduct::try_from(&load_quests()).unwrap();
    let reordered = QuestProduct::try_from(&Byml::Array(vec![
        entry("Name", "Find_4Relic", 2),
        entry("Name", "Npc_Road_006", 1),
        entry("Name", "AncientBall_Kakariko", 3),
    ]))
    .unwrap();
    let diff = quests.diff(&reordered);
    assert!(diff.0.is_empty());
    let merged = quests.merge(&diff);
    assert!(merged.same(&quests));
    assert!(!merged.same(&reordered));
}

#[test]
fn product_missing_name_is_named() {
    let byml = Byml::Array(vec![entry("Name", "a", 1), entry("Title", "b", 2)]);
    assert_eq!(
        QuestProduct::try_from(&byml).unwrap_err(),
        UKError::MissingBymlKey("Quest entry missing name")
    );
    assert_eq!(QuestProduct::try_from(&Byml::Null).unwrap_err(), UKError::WrongBymlType("Array"));
    let not_hash = Byml::Array(vec![Byml::Int(1)]);
    assert_eq!(QuestProduct::try_from(&not_hash).unwrap_err(), UKError::WrongBymlType("Hash"));
    let not_string = Byml::Array(vec![Byml::Hash(vec![("Name".to_owned(), Byml::Int(1))])]);
    assert_eq!(QuestProduct::try_from(&not_string).unwrap_err(), UKError::WrongBymlType("String"));
}

#[test]
fn product_written_without_tombstones() {
    let quests = QuestProduct::try_from(&load_quests()).unwrap();
    let quests2 = QuestProduct::try_from(&load_mod_quests()).unwrap();
    let diff = quests.diff(&quests2);
    let written = diff.to_byml();
    assert_eq!(written.as_array().unwrap().len(), 2);
    let again = QuestProduct::try_from(&quests.to_byml()).unwrap();
    assert!(again.same(&quests));
}

#[test]
fn mod_diff() {
    let byml = load_tips();
    let tips = Tips::try_from(&byml).unwrap();
    let byml2 = load_mod_tips();
    let tips2 = Tips::try_from(&byml2).unwrap();
    let diff = tips.diff(&tips2);
    let entries = diff.0.entries();
    let keys: Vec<&str> = entries.iter().map(|e| e.0.as_str()).collect();
    assert_eq!(keys, vec!["TipsWorld_01", "TipsWorld_03", "TipsWorld_07"]);
    assert!(entries[0].1.is_some());
    assert!(entries[1].1.is_none());
    assert!(entries[2].1.is_some());
}

#[test]
fn mod_merge() {
    let byml = load_tips();
    let tips = Tips::try_from(&byml).unwrap();
    let byml2 = load_mod_tips();
    let tips2 = Tips::try_from(&byml2).unwrap();
    let diff = tips.diff(&tips2);
    let merged = tips.merge(&diff);
    assert_eq!(merged, tips2);
}

#[test]
fn tips_are_equal_whatever_the_order_of_the_file() {
    let tips = Tips::try_from(&load_tips()).unwrap();
    let sorted = Tips::try_from(&Byml::Array(vec![
        entry("MessageId", "TipsWorld_01", 1),
        entry("MessageId", "TipsWorld_03", 3),
        entry("MessageId", "TipsWorld_05", 5),
    ]))
    .unwrap();
    assert!(tips.same(&sorted));
    assert!(Tips::try_from(&tips.to_byml()).unwrap().same(&tips));
}

#[test]
fn tips_missing_id_is_named() {
    let byml = Byml::Array(vec![entry("Name", "a", 1)]);
    assert_eq!(
        Tips::try_from(&byml).unwrap_err(),
        UKError::MissingBymlKey("Tips file entry missing MessageId")
    );
}

#[test]
fn tips_path_is_claimed() {
    assert!(Tips::path_matches("content/Pack/Bootup.pack//Tips/TipsWorld.sbyml"));
    assert!(Tips::path_matches("Tips/TipsLoading.byml"));
    assert!(!Tips::path_matches("Tips/World.sbyml"));
    assert!(!Tips::path_matches("Tips/TipsWorld.bdrop"));
}
