use ukmm::aamp::{Parameter, ParameterIO, ParameterList, ParameterObject};
use ukmm::actor::params::drop::DropTable;
use ukmm::byml::Byml;
use ukmm::datum::Datum;
use ukmm::prelude::Mergeable;
use ukmm::error::UKError;
use ukmm::util::collections::DeleteMap;

fn table(items: &[&str]) -> ParameterObject {
    let mut object = ParameterObject::new()
        .with_parameter("RepeatNumMin", Parameter::Int(1))
        .with_parameter("RepeatNumMax", Parameter::Int(2))
        .with_parameter("ColumnNum", Parameter::Int(items.len() as i32));
    for (i, item) in items.iter().enumerate() {
        object = object
            .with_parameter(
                &format!("ItemName{:02}", i + 1),
                Parameter::String64((*item).to_owned()),
            )
            .with_parameter(
                &format!("ItemProbability{:02}", i + 1),
                Parameter::F32((100.0f32 / items.len() as f32).to_bits()),
            );
    }
    object
}

fn archive(tables: Vec<(&str, ParameterObject)>) -> ParameterIO {
    let mut header =
        ParameterObject::new().with_parameter("TableNum", Parameter::Int(tables.len() as i32));
    for (i, (name, _)) in tables.iter().enumerate() {
        header = header.with_parameter(
            &format!("Table{:02}", i + 1),
            Parameter::String64((*name).to_owned()),
        );
    }
    let mut objects = vec![(roead::aamp::hash_name("Header"), header)];
    for (name, object) in tables {
        objects.push((roead::aamp::hash_name(name), object));
    }
    ParameterIO::from_root(ParameterList::from_entries(objects, vec![]))
}

fn headed(header: ParameterObject, tables: Vec<(&str, ParameterObject)>) -> ParameterIO {
    let mut objects = vec![(roead::aamp::hash_name("Header"), header)];
    for (name, object) in tables {
        objects.push((roead::aamp::hash_name(name), object));
    }
    ParameterIO::from_root(ParameterList::from_entries(objects, vec![]))
}

fn base_actor() -> ParameterIO {
    archive(vec![
        (
            "Normal",
            table(&[
                "Item_Enemy_27",
                "Item_Enemy_28",
                "Item_Enemy_26",
                "Item_Enemy_29",
                "Item_Enemy_30",
                "Item_Enemy_31",
            ]),
        ),
        ("Normal2", table(&["Item_Enemy_27", "Item_Enemy_28"])),
    ])
}

fn mod_actor() -> ParameterIO {
    archive(vec![
        ("Normal", table(&["Item_Enemy_27", "Item_Enemy_28", "Item_Ore_A"])),
        ("Normal2", table(&["Item_Enemy_27", "Item_Enemy_28"])),
        ("Normal3", table(&["Item_Ore_B"])),
    ])
}

fn names(drop: &DropTable) -> Vec<String> {
    drop.0.pairs().into_iter().map(|(k, _)| k).collect()
}

#[test]
fn drop_diff() {
    let pio = base_actor();
    let drop = DropTable::try_from(&pio).unwrap();
    let pio2 = mod_actor();
    let drop2 = DropTable::try_from(&pio2).unwrap();
    let diff = drop.diff(&drop2);
    assert_eq!(names(&diff), vec!["Normal", "Normal3"]);
    assert!(!diff.0.contains_key(&"Normal2".to_owned()));
    assert!(!diff.0.is_deleted(&"Normal2".to_owned()));
}

#[test]
fn drop_merge() {
    let pio = base_actor();
    let drop = DropTable::try_from(&pio).unwrap();
    let pio2 = mod_actor();
    let drop2 = DropTable::try_from(&pio2).unwrap();
    let diff = drop.diff(&drop2);
    let merged = drop.merge(&diff);
    assert_eq!(drop2, merged);
}

#[test]
fn info() {
    let pio = base_actor();
    let drop = DropTable::try_from(&pio).unwrap();
    let mut info: Vec<(String, Byml)> = Vec::new();
    drop.update_info(&mut info).unwrap();
    assert_eq!(info[0].0, "drops");
    let drops = info[0].1.as_hash().unwrap();
    assert_eq!(drops[0].0, "Normal");
    let expected = vec![
        Byml::String("Item_Enemy_27".to_owned()),
        Byml::String("Item_Enemy_28".to_owned()),
        Byml::String("Item_Enemy_26".to_owned()),
        Byml::String("Item_Enemy_29".to_owned()),
        Byml::String("Item_Enemy_30".to_owned()),
        Byml::String("Item_Enemy_31".to_owned()),
    ];
    assert!(drops[0].1.as_array().unwrap().same(&expected));
}

#[test]
fn drop_identify() {
    let path =
        "content/Actor/Pack/Enemy_Guardian_A.sbactorpack//Actor/DropTable/Enemy_Guardian_A.bdrop";
    assert!(DropTable::path_matches(path));
    assert!(!DropTable::path_matches("Actor/DropTable/Enemy_Guardian_A.bdrop.bak"));
    assert_eq!(DropTable::path("Enemy_Guardian_A"), "Actor/DropTable/Enemy_Guardian_A.bdrop");
}

#[test]
fn drop_end_to_end() {
    let base = DropTable::try_from(&archive(vec![
        ("Normal", table(&["Item_A"])),
        ("Rare", table(&["Item_B"])),
    ]))
    .unwrap();
    let modded = DropTable::try_from(&archive(vec![
        ("Normal", table(&["Item_A", "Item_C"])),
        ("Boss", table(&["Item_D"])),
    ]))
    .unwrap();
    let diff = base.diff(&modded);
    let entries = diff.0.entries();
    assert_eq!(entries.len(), 3);
    assert_eq!(entries[0].0, "Normal");
    assert!(entries[0].1.as_ref().unwrap().same(&table(&["Item_A", "Item_C"])));
    assert_eq!(entries[1].0, "Boss");
    assert!(entries[1].1.is_some());
    assert_eq!(entries[2].0, "Rare");
    assert!(entries[2].1.is_none());
    let merged = base.merge(&diff);
    assert_eq!(names(&merged), vec!["Normal", "Boss"]);
    assert!(merged.same(&modded));
    assert!(merged.0.is_materialized());
    assert!(merged.0.get(&"Rare".to_owned()).is_none());
}

#[test]
fn drop_header_is_rebuilt_from_the_tables() {
    let mut map: DeleteMap<String, ParameterObject> = DeleteMap::new();
    map.insert("Normal".to_owned(), table(&["Item_A"]));
    map.insert("Boss".to_owned(), table(&["Item_D"]));
    let pio = DropTable(map).to_pio();
    assert_eq!(pio.version, 0);
    assert_eq!(pio.data_type, "xml");
    assert_eq!(pio.param_root.objects().len(), 3);
    let header = pio.object("Header").unwrap();
    assert!(header.param("TableNum").unwrap().same(&Parameter::Int(2)));
    assert!(header.param("Table01").unwrap().same(&Parameter::String64("Normal".to_owned())));
    assert!(header.param("Table02").unwrap().same(&Parameter::String64("Boss".to_owned())));
    assert!(header.param("Table03").is_none());
    assert!(pio.object("Boss").unwrap().same(&table(&["Item_D"])));
}

#[test]
fn drop_writes_no_tombstone() {
    let base = DropTable::try_from(&base_actor()).unwrap();
    let modded = DropTable::try_from(&archive(vec![("Normal2", table(&["Item_X"]))])).unwrap();
    let diff = base.diff(&modded);
    assert!(diff.0.is_deleted(&"Normal".to_owned()));
    let pio = diff.to_pio();
    assert!(pio.object("Normal").is_none());
    assert!(pio.object("Header").unwrap().param("TableNum").unwrap().same(&Parameter::Int(1)));
}

#[test]
fn drop_missing_parts_are_named() {
    let empty = ParameterIO::new();
    assert_eq!(
        DropTable::try_from(&empty).unwrap_err(),
        UKError::MissingAampKey("Drop table missing header")
    );
    let pio = headed(ParameterObject::new(), vec![]);
    assert_eq!(
        DropTable::try_from(&pio).unwrap_err(),
        UKError::MissingAampKey("Drop table header missing table count")
    );
    let pio =
        headed(ParameterObject::new().with_parameter("TableNum", Parameter::Bool(true)), vec![]);
    assert_eq!(DropTable::try_from(&pio).unwrap_err(), UKError::WrongAampType("Int"));
}

#[test]
fn drop_fails_on_a_table_that_is_not_there() {
    let header = ParameterObject::new()
        .with_parameter("TableNum", Parameter::Int(3))
        .with_parameter("Table01", Parameter::String64("Ghost".to_owned()))
        .with_parameter("Table02", Parameter::Int(5))
        .with_parameter("Table03", Parameter::String64("Normal".to_owned()));
    let pio = headed(header, vec![("Normal", table(&["Item_A"]))]);
    assert_eq!(
        DropTable::try_from(&pio).unwrap_err(),
        UKError::MissingAampPlace("Drop table missing table", 1)
    );
}

#[test]
fn drop_fails_on_a_place_that_the_header_does_not_fill() {
    let header = ParameterObject::new()
        .with_parameter("TableNum", Parameter::Int(2))
        .with_parameter("Table01", Parameter::String64("Normal".to_owned()));
    let pio = headed(header, vec![("Normal", table(&["Item_A"]))]);
    let error = DropTable::try_from(&pio).unwrap_err();
    assert_eq!(error, UKError::MissingAampPlace("Drop table header missing table name", 2));
    assert_eq!(error.place(), Some(2));
    assert!(error.is_missing_key());
}

#[test]
fn drop_fails_on_a_place_that_holds_no_name() {
    let header = ParameterObject::new()
        .with_parameter("TableNum", Parameter::Int(2))
        .with_parameter("Table01", Parameter::String64("Normal".to_owned()))
        .with_parameter("Table02", Parameter::Int(5));
    let pio = headed(header, vec![("Normal", table(&["Item_A"]))]);
    assert_eq!(DropTable::try_from(&pio).unwrap_err(), UKError::WrongAampPlace("String64", 2));
    let header = ParameterObject::new()
        .with_parameter("TableNum", Parameter::Int(2))
        .with_parameter("Table01", Parameter::String64("Normal".to_owned()))
        .with_parameter("Table02", Parameter::String32("Normal".to_owned()));
    let pio = headed(header, vec![("Normal", table(&["Item_A"]))]);
    let error = DropTable::try_from(&pio).unwrap_err();
    assert_eq!(error, UKError::WrongAampPlace("String64", 2));
    assert_eq!(error.place(), Some(2));
    assert_eq!(error.detail(), "String64");
    assert!(!error.is_missing_key());
}

#[test]
fn drop_reads_the_tables_that_the_header_counts() {
    let header = ParameterObject::new()
        .with_parameter("TableNum", Parameter::Int(1))
        .with_parameter("Table01", Parameter::String64("Normal".to_owned()))
        .with_parameter("Table02", Parameter::String64("Ghost".to_owned()));
    let pio = headed(header, vec![("Normal", table(&["Item_A"])), ("Rare", table(&["Item_B"]))]);
    let drop = DropTable::try_from(&pio).unwrap();
    assert_eq!(names(&drop), vec!["Normal"]);
    let header = ParameterObject::new().with_parameter("TableNum", Parameter::Int(0));
    let drop = DropTable::try_from(&headed(header, vec![])).unwrap();
    assert!(drop.0.is_empty());
}

#[test]
fn info_failures_leave_the_side_table_alone() {
    let mut map: DeleteMap<String, ParameterObject> = DeleteMap::new();
    map.insert("Normal".to_owned(), ParameterObject::new());
    let mut info: Vec<(String, Byml)> = vec![("keep".to_owned(), Byml::Null)];
    assert_eq!(
        DropTable(map).update_info(&mut info).unwrap_err(),
        UKError::MissingAampKey("Drop table missing column count")
    );
    assert_eq!(info.len(), 1);
    let mut map: DeleteMap<String, ParameterObject> = DeleteMap::new();
    map.insert(
        "Normal".to_owned(),
        ParameterObject::new().with_parameter("ColumnNum", Parameter::Int(1)),
    );
    assert_eq!(
        DropTable(map).update_info(&mut info).unwrap_err(),
        UKError::MissingAampKey("Drop table missing item name")
    );
    let mut map: DeleteMap<String, ParameterObject> = DeleteMap::new();
    map.insert(
        "Normal".to_owned(),
        ParameterObject::new()
            .with_parameter("ColumnNum", Parameter::Int(1))
            .with_parameter("ItemName01", Parameter::Int(1)),
    );
    assert_eq!(
        DropTable(map).update_info(&mut info).unwrap_err(),
        UKError::WrongAampType("a string type")
    );
}

#[test]
fn info_replaces_older_drops() {
    let drop = DropTable::try_from(&archive(vec![("Normal", table(&["Item_A"]))])).unwrap();
    let mut info: Vec<(String, Byml)> =
        vec![("drops".to_owned(), Byml::Null), ("other".to_owned(), Byml::Int(1))];
    drop.update_info(&mut info).unwrap();
    assert_eq!(info.len(), 2);
    assert_eq!(info[0].0, "drops");
    assert_eq!(info[0].1.as_hash().unwrap().len(), 1);
    assert_eq!(info[1].0, "other");
}
