use ukmm::byml::Byml;
use ukmm::data::savedata::{Flag, SaveData, SaveDataHeader};
use ukmm::datum::Datum;
use ukmm::quest::product::QuestProduct;
use ukmm::tips::Tips;
use ukmm::util::collections::SortedDeleteSet;

fn byml_out(node: &Byml) -> roead::byml::Byml {
    match node {
        Byml::Null => roead::byml::Byml::Null,
        Byml::Bool(v) => roead::byml::Byml::Bool(*v),
        Byml::Int(v) => roead::byml::Byml::I32(*v),
        Byml::UInt(v) => roead::byml::Byml::U32(*v),
        Byml::Int64(v) => roead::byml::Byml::I64(*v),
        Byml::UInt64(v) => roead::byml::Byml::U64(*v),
        Byml::Float(v) => roead::byml::Byml::Float(f32::from_bits(*v)),
        Byml::Double(v) => roead::byml::Byml::Double(f64::from_bits(*v)),
        Byml::String(s) => roead::byml::Byml::String(s.as_str().into()),
        Byml::Binary(b) => roead::byml::Byml::BinaryData(b.clone()),
        Byml::Array(items) => roead::byml::Byml::Array(items.iter().map(byml_out).collect()),
        Byml::Hash(entries) => roead::byml::Byml::Map(
            entries
                .iter()
                .map(|(k, v)| (k.as_str().into(), byml_out(v)))
                .collect(),
        ),
    }
}

fn byml_in(node: &roead::byml::Byml) -> Byml {
    match node {
        roead::byml::Byml::Null => Byml::Null,
        roead::byml::Byml::Bool(v) => Byml::Bool(*v),
        roead::byml::Byml::I32(v) => Byml::Int(*v),
        roead::byml::Byml::U32(v) => Byml::UInt(*v),
        roead::byml::Byml::I64(v) => Byml::Int64(*v),
        roead::byml::Byml::U64(v) => Byml::UInt64(*v),
        roead::byml::Byml::Float(v) => Byml::Float(v.to_bits()),
        roead::byml::Byml::Double(v) => Byml::Double(v.to_bits()),
        roead::byml::Byml::String(s) => Byml::String(s.to_string()),
        roead::byml::Byml::BinaryData(b) => Byml::Binary(b.clone()),
        roead::byml::Byml::Array(items) => Byml::Array(items.iter().map(byml_in).collect()),
        roead::byml::Byml::Map(map) => {
            let mut entries: Vec<(String, Byml)> =
                map.iter().map(|(k, v)| (k.to_string(), byml_in(v))).collect();
            entries.sort_by(|a, b| a.0.cmp(&b.0));
            Byml::Hash(entries)
        }
        other => panic!("unsupported node {:?}", other),
    }
}

fn through_binary(node: &Byml) -> Byml {
    let data = byml_out(node).to_binary(roead::Endian::Big);
    byml_in(&roead::byml::Byml::from_binary(&data).unwrap())
}

fn savedata_fixture(flags: &[&str]) -> Byml {
    let data = SaveData {
        header: SaveDataHeader {
            is_common: false,
            is_common_at_same_account: false,
            is_save_secure_code: true,
            file_name: "game_data.sav".to_owned(),
        },
        flags: SortedDeleteSet::from_items(flags.iter().map(|f| Flag::from_str(f)).collect()),
    };
    through_binary(&data.to_byml())
}

fn load_savedata() -> Byml {
    savedata_fixture(&["AoC_DragonFireChallengeRing_Advent", "AlbumPictureIndex", "Clear_Dungeon001"])
}

fn entry(key: &str, name: &str, extra: i32) -> Byml {
    Byml::Hash(vec![
        (key.to_owned(), Byml::String(name.to_owned())),
        ("Step".to_owned(), Byml::Int(extra)),
        ("Weight".to_owned(), Byml::Float(1.5f32.to_bits())),
    ])
}

fn load_quests() -> Byml {
    through_binary(&Byml::Array(vec![
        entry("Name", "Npc_Road_006", 1),
        entry("Name", "Find_4Relic", 2),
        entry("Name", "AncientBall_Kakariko", 3),
    ]))
}

fn load_tips() -> Byml {
    through_binary(&Byml::Array(vec![
        entry("MessageId", "TipsWorld_05", 5),
        entry("MessageId", "TipsWorld_01", 1),
        entry("MessageId", "TipsWorld_03", 3),
    ]))
}

#[test]
fn savedata_serde() {
    let byml = load_savedata();
    let savedata = SaveData::try_from(&byml).unwrap();
    let data = byml_out(&savedata.dup().to_byml()).to_binary(roead::Endian::Big);
    let byml2 = byml_in(&roead::byml::Byml::from_binary(&data).unwrap());
    let savedata2 = SaveData::try_from(&byml2).unwrap();
    assert_eq!(savedata, savedata2);
    assert_eq!(savedata2.flags.len(), 3);
    assert_eq!(savedata2.header.file_name, "game_data.sav");
}

#[test]
fn product_serde() {
    let byml = load_quests();
    let quests = QuestProduct::try_from(&byml).unwrap();
    let data = byml_out(&quests.dup().to_byml()).to_binary(roead::Endian::Big);
    let byml2 = byml_in(&roead::byml::Byml::from_binary(&data).unwrap());
    let quests2 = QuestProduct::try_from(&byml2).unwrap();
    assert_eq!(quests, quests2);
    let names: Vec<String> = quests2.0.pairs().into_iter().map(|(k, _)| k).collect();
    assert_eq!(names, vec!["Npc_Road_006", "Find_4Relic", "AncientBall_Kakariko"]);
}

#[test]
fn mod_serde() {
    let byml = load_tips();
    let tips = Tips::try_from(&byml).unwrap();
    let data = byml_out(&tips.dup().to_byml()).to_binary(roead::Endian::Big);
    let byml2 = byml_in(&roead::byml::Byml::from_binary(&data).unwrap());
    let tips2 = Tips::try_from(&byml2).unwrap();
    assert_eq!(tips, tips2);
    let names: Vec<String> = tips2.0.pairs().into_iter().map(|(k, _)| k).collect();
    assert_eq!(names, vec!["TipsWorld_01", "TipsWorld_03", "TipsWorld_05"]);
}

#[test]
fn binary_keeps_every_kind_of_leaf() {
    let doc = Byml::Hash(vec![
        ("a".to_owned(), Byml::Bool(true)),
        ("b".to_owned(), Byml::Int(-7)),
        ("c".to_owned(), Byml::UInt(0x8000_0001)),
        ("d".to_owned(), Byml::Float(0.25f32.to_bits())),
        ("e".to_owned(), Byml::String("text".to_owned())),
        ("f".to_owned(), Byml::Array(vec![Byml::Null, Byml::Int(1)])),
    ]);
    assert!(through_binary(&doc).same(&doc));
}

#[test]
fn flag_hash_is_the_checksum_of_the_name() {
    let flag = Flag::from_str("The Abolition of Man");
    assert_eq!(flag.hash(), 0x41afa934);
    assert_eq!(flag.name(), "The Abolition of Man");
    let other = Flag::from("Clear_Dungeon001".to_owned());
    assert_eq!(other.hash(), roead::aamp::hash_name("Clear_Dungeon001") as i32);
    assert_ne!(other.hash(), flag.hash());
}
