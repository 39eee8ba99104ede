use ukmm::resource::{
    canonicalize, extension_chars, has_extension, has_stem, resource_kind, stem_begins,
    ResourceKind,
};
use ukmm::text::{mentions, numbered};

#[test]
fn canonical_paths() {
    assert_eq!(canonicalize("content/Actor/ActorInfo.product.sbyml"), "Actor/ActorInfo.product.byml");
    assert_eq!(canonicalize("content\\Pack\\Bootup.pack"), "Pack/Bootup.pack");
    assert_eq!(canonicalize("Content/Pack/Bootup.pack"), "Pack/Bootup.pack");
    assert_eq!(canonicalize("Pack/Bootup.pack"), "Pack/Bootup.pack");
    assert_eq!(
        canonicalize("aoc/0010/Map/MainField/A-1/A-1_Dynamic.smubin"),
        "Aoc/0010/Map/MainField/A-1/A-1_Dynamic.mubin"
    );
    assert_eq!(
        canonicalize("aoc/content/0010/Pack/AocMainField.pack"),
        "Aoc/0010/Pack/AocMainField.pack"
    );
    assert_eq!(
        canonicalize("atmosphere/contents/01007EF00011E000/romfs/Actor/Pack/A.sbactorpack"),
        "Actor/Pack/A.bactorpack"
    );
    assert_eq!(
        canonicalize("01007EF00011F001/romfs/Pack/AocMainField.pack"),
        "Aoc/0010/Pack/AocMainField.pack"
    );
    assert_eq!(canonicalize("romfs/System/Version.txt"), "System/Version.txt");
    assert_eq!(canonicalize("content/content/a.ssarc"), "a.sarc");
    assert_eq!(canonicalize(""), "");
}

#[test]
fn two_roots_give_one_canonical_path() {
    let base = canonicalize("content/Actor/Pack/Enemy_Guardian_A.sbactorpack");
    let update = canonicalize("01007EF00011E000/romfs/Actor/Pack/Enemy_Guardian_A.sbactorpack");
    assert_eq!(base, update);
    assert_eq!(canonicalize(&base), base);
}

#[test]
fn extensions_and_stems() {
    assert!(has_extension("a/b/c.bdrop", "bdrop"));
    assert!(!has_extension("a/b/c.bdrop", "drop"));
    assert!(!has_extension("a/b.bdrop/c", "bdrop"));
    assert!(!has_extension("a/.bdrop", "bdrop"));
    assert!(has_extension("a/c.tar.gz", "gz"));
    assert!(has_extension("a/c.bdrop/", "bdrop"));
    assert!(has_extension("a/c.", ""));
    assert!(!has_extension("a/..", ""));
    assert!(!has_extension("", ""));
    assert!(has_stem("a/b/QuestProduct.sbquestpack", "QuestProduct"));
    assert!(has_stem("QuestProduct", "QuestProduct"));
    assert!(has_stem("a/.hidden", ".hidden"));
    assert!(has_stem("a/c.tar.gz", "c.tar"));
    assert!(!has_stem("a/QuestProduct/x.bin", "QuestProduct"));
    assert!(stem_begins("Tips/TipsWorld.sbyml", "Tips"));
    assert!(!stem_begins("Tips/World.sbyml", "Tips"));
    assert_eq!(extension_chars("a/b.Zip"), Some(vec!['Z', 'i', 'p']));
    assert_eq!(extension_chars("a/b"), None);
}

#[test]
fn exactly_one_kind_claims_each_known_path() {
    let known = [
        ("content/Actor/Pack/Enemy_Guardian_A.sbactorpack//Actor/DropTable/Enemy_Guardian_A.bdrop", ResourceKind::DropTable),
        ("Actor/UMii/Npc_TripMaster_00.bumii", ResourceKind::UMii),
        ("Actor/RagdollConfig/Moriblin_Blue_Bomb.brgconfig", ResourceKind::RagdollConfig),
        ("GameData/saveformat_0.bgsvdata", ResourceKind::SaveData),
        ("content/Pack/TitleBG.pack//Quest/QuestProduct.sbquestpack", ResourceKind::QuestProduct),
        ("Tips/TipsWorld.sbyml", ResourceKind::Tips),
    ];
    for (path, kind) in known {
        assert_eq!(resource_kind(path), Some(kind));
        let claims = [
            ukmm::actor::params::drop::DropTable::path_matches(path),
            ukmm::actor::params::umii::UMii::path_matches(path),
            ukmm::actor::rgconfig::RagdollConfig::path_matches(path),
            ukmm::data::savedata::SaveData::path_matches(path),
            ukmm::quest::product::QuestProduct::path_matches(path),
            ukmm::tips::Tips::path_matches(path),
        ];
        assert_eq!(claims.iter().filter(|c| **c).count(), 1);
    }
    for path in ["System/Version.txt", "Model/Animal_Bear.sbfres", "readme", "", "Actor/bdrop"] {
        assert_eq!(resource_kind(path), None);
    }
}

#[test]
fn a_quest_product_needs_its_extension_too() {
    use_claims("Actor/DropTable/QuestProduct.bdrop", Some(ResourceKind::DropTable));
    use_claims("Quest/QuestProduct.bquestpack", Some(ResourceKind::QuestProduct));
    use_claims("Quest/QuestProduct.sbyml", None);
    use_claims("Quest/QuestProduct", None);
    use_claims("Quest/Other.sbquestpack", None);
}

fn use_claims(path: &str, kind: Option<ResourceKind>) {
    assert_eq!(resource_kind(path), kind);
    let claims = [
        ukmm::actor::params::drop::DropTable::path_matches(path),
        ukmm::actor::params::umii::UMii::path_matches(path),
        ukmm::actor::rgconfig::RagdollConfig::path_matches(path),
        ukmm::data::savedata::SaveData::path_matches(path),
        ukmm::quest::product::QuestProduct::path_matches(path),
        ukmm::tips::Tips::path_matches(path),
    ];
    let count = claims.iter().filter(|c| **c).count();
    assert_eq!(count, if kind.is_some() { 1 } else { 0 });
}

#[test]
fn numbered_names() {
    assert_eq!(numbered("Table", 1), "Table01");
    assert_eq!(numbered("Table", 9), "Table09");
    assert_eq!(numbered("Table", 10), "Table10");
    assert_eq!(numbered("ItemName", 123), "ItemName123");
    assert_eq!(numbered("ImpactImpulseInfo", 0), "ImpactImpulseInfo00");
    assert_eq!(numbered("", 4096), "4096");
}

#[test]
fn words_in_texts() {
    assert!(mentions("invalid Zip archive: bad", "invalid Zip"));
    assert!(mentions("x meta file", "meta file"));
    assert!(!mentions("invalid zip archive", "invalid Zip"));
    assert!(mentions("abc", ""));
    assert!(mentions("", ""));
    assert!(!mentions("", "a"));
    assert!(mentions("aab", "ab"));
}

#[test]
fn extensions_and_stems_are_those_of_the_standard_paths() {
    let paths = [
        "a/b.bdrop",
        "a/b.bdrop/",
        "a/b.bdrop/.",
        "a/b.bdrop/./",
        "a/b.bdrop//.//./",
        "a/b.bdrop/..",
        "a/./b.x",
        ".",
        "./",
        "./.",
        "..",
        "/",
        "/.",
        "",
        ".hidden",
        "a/.hidden",
        "a/.hidden.txt",
        "a/b.",
        "a/b..",
        "a/b.c.d",
        "a.b/c",
        "Quest/QuestProduct.sbquestpack/.",
        "x/...",
    ];
    for path in paths {
        let std_path = std::path::Path::new(path);
        let ext = std_path.extension().and_then(|e| e.to_str());
        let stem = std_path.file_stem().and_then(|e| e.to_str());
        let mine = extension_chars(path).map(|c| c.into_iter().collect::<String>());
        assert_eq!(mine.as_deref(), ext, "extension of {:?}", path);
        if let Some(ext) = ext {
            assert!(has_extension(path, ext), "extension of {:?}", path);
        }
        assert!(!has_extension(path, "no-such-extension"));
        match stem {
            Some(stem) => assert!(has_stem(path, stem), "stem of {:?}", path),
            None => assert!(!has_stem(path, ""), "stem of {:?}", path),
        }
    }
}
