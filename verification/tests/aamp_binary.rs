use roead::aamp::Name;
use roead::aamp::Parameter as P;
use ukmm::aamp::{Parameter, ParameterIO, ParameterList, ParameterObject};
use ukmm::actor::params::drop::DropTable;
use ukmm::actor::params::umii::UMii;
use ukmm::actor::rgconfig::RagdollConfig;
use ukmm::datum::Datum;

fn floats(kind: u8, values: &[f32]) -> Parameter {
    Parameter::Words(kind, values.iter().map(|v| v.to_bits()).collect())
}

fn curve_in(curve: &roead::types::Curve, out: &mut Vec<u32>) {
    out.push(curve.a);
    out.push(curve.b);
    out.extend(curve.floats.iter().map(|f| f.to_bits()));
}

fn curve_out(words: &[u32]) -> roead::types::Curve {
    let mut floats = [0f32; 30];
    for (slot, word) in floats.iter_mut().zip(&words[2..32]) {
        *slot = f32::from_bits(*word);
    }
    roead::types::Curve { a: words[0], b: words[1], floats }
}

fn param_in(param: &roead::aamp::Parameter) -> Parameter {
    match param {
        P::Bool(v) => Parameter::Bool(*v),
        P::F32(v) => Parameter::F32(v.to_bits()),
        P::I32(v) => Parameter::Int(*v),
        P::U32(v) => Parameter::U32(*v),
        P::Vec2(v) => floats(3, &[v.x, v.y]),
        P::Vec3(v) => floats(4, &[v.x, v.y, v.z]),
        P::Vec4(v) => floats(5, &[v.x, v.y, v.z, v.t]),
        P::Color(v) => floats(6, &[v.r, v.g, v.b, v.a]),
        P::Quat(v) => floats(16, &[v.a, v.b, v.c, v.d]),
        P::String32(s) => Parameter::String32(s.as_str().to_owned()),
        P::String64(s) => Parameter::String64(s.as_str().to_owned()),
        P::String256(s) => Parameter::String256(s.as_str().to_owned()),
        P::StringRef(s) => Parameter::StringRef(s.to_string()),
        P::Curve1(c) => curves_in(9, c.as_slice()),
        P::Curve2(c) => curves_in(10, c.as_slice()),
        P::Curve3(c) => curves_in(11, c.as_slice()),
        P::Curve4(c) => curves_in(12, c.as_slice()),
        P::BufferInt(v) => Parameter::Words(13, v.iter().map(|i| *i as u32).collect()),
        P::BufferF32(v) => floats(14, v),
        P::BufferU32(v) => Parameter::Words(18, v.clone()),
        P::BufferBinary(v) => Parameter::Bytes(v.clone()),
    }
}

fn curves_in(kind: u8, curves: &[roead::types::Curve]) -> Parameter {
    let mut words = Vec::new();
    for curve in curves {
        curve_in(curve, &mut words);
    }
    Parameter::Words(kind, words)
}

fn param_out(param: &Parameter) -> roead::aamp::Parameter {
    let f = |w: &Vec<u32>, i: usize| f32::from_bits(w[i]);
    match param {
        Parameter::Bool(v) => P::Bool(*v),
        Parameter::F32(v) => P::F32(f32::from_bits(*v)),
        Parameter::Int(v) => P::I32(*v),
        Parameter::U32(v) => P::U32(*v),
        Parameter::String32(s) => P::String32(s.as_str().into()),
        Parameter::String64(s) => P::String64(Box::new(s.as_str().into())),
        Parameter::String256(s) => P::String256(Box::new(s.as_str().into())),
        Parameter::StringRef(s) => P::StringRef(s.as_str().into()),
        Parameter::Bytes(b) => P::BufferBinary(b.clone()),
        Parameter::Words(3, w) => P::Vec2(roead::types::Vector2f { x: f(w, 0), y: f(w, 1) }),
        Parameter::Words(4, w) => {
            P::Vec3(roead::types::Vector3f { x: f(w, 0), y: f(w, 1), z: f(w, 2) })
        }
        Parameter::Words(5, w) => {
            P::Vec4(roead::types::Vector4f { x: f(w, 0), y: f(w, 1), z: f(w, 2), t: f(w, 3) })
        }
        Parameter::Words(6, w) => {
            P::Color(roead::types::Color { r: f(w, 0), g: f(w, 1), b: f(w, 2), a: f(w, 3) })
        }
        Parameter::Words(16, w) => {
            P::Quat(roead::types::Quat { a: f(w, 0), b: f(w, 1), c: f(w, 2), d: f(w, 3) })
        }
        Parameter::Words(9, w) => P::Curve1(Box::new([curve_out(&w[0..32])])),
        Parameter::Words(10, w) => {
            P::Curve2(Box::new([curve_out(&w[0..32]), curve_out(&w[32..64])]))
        }
        Parameter::Words(11, w) => P::Curve3(Box::new([
            curve_out(&w[0..32]),
            curve_out(&w[32..64]),
            curve_out(&w[64..96]),
        ])),
        Parameter::Words(12, w) => P::Curve4(Box::new([
            curve_out(&w[0..32]),
            curve_out(&w[32..64]),
            curve_out(&w[64..96]),
            curve_out(&w[96..128]),
        ])),
        Parameter::Words(13, w) => P::BufferInt(w.iter().map(|u| *u as i32).collect()),
        Parameter::Words(14, w) => P::BufferF32(w.iter().map(|u| f32::from_bits(*u)).collect()),
        Parameter::Words(18, w) => P::BufferU32(w.clone()),
        Parameter::Words(kind, _) => panic!("no parameter of kind {}", kind),
    }
}

fn object_in(object: &roead::aamp::ParameterObject) -> ParameterObject {
    ParameterObject::from_pairs(object.0.iter().map(|(k, v)| (k.hash(), param_in(v))).collect())
}

fn object_out(object: &ParameterObject) -> roead::aamp::ParameterObject {
    roead::aamp::ParameterObject(
        object.pairs().iter().map(|(k, v)| (Name::from(*k), param_out(v))).collect(),
    )
}

fn list_in(list: &roead::aamp::ParameterList) -> ParameterList {
    ParameterList::from_entries(
        list.objects.0.iter().map(|(k, v)| (k.hash(), object_in(v))).collect(),
        list.lists.0.iter().map(|(k, v)| (k.hash(), list_in(v))).collect(),
    )
}

fn list_out(list: &ParameterList) -> roead::aamp::ParameterList {
    roead::aamp::ParameterList {
        objects: roead::aamp::ParameterObjectMap(
            list.objects()
                .iter()
                .filter_map(|(k, v)| v.as_ref().map(|v| (Name::from(*k), object_out(v))))
                .collect(),
        ),
        lists: roead::aamp::ParameterListMap(
            list.lists()
                .iter()
                .filter_map(|(k, v)| v.as_ref().map(|v| (Name::from(*k), list_out(v))))
                .collect(),
        ),
    }
}

fn pio_in(pio: &roead::aamp::ParameterIO) -> ParameterIO {
    ParameterIO {
        version: pio.version,
        data_type: pio.data_type.to_string(),
        param_root: list_in(&pio.param_root),
    }
}

fn pio_out(pio: &ParameterIO) -> roead::aamp::ParameterIO {
    roead::aamp::ParameterIO {
        version: pio.version,
        data_type: pio.data_type.as_str().into(),
        param_root: list_out(&pio.param_root),
    }
}

fn through_binary(pio: &ParameterIO) -> ParameterIO {
    let data = pio_out(pio).to_binary();
    pio_in(&roead::aamp::ParameterIO::from_binary(&data).unwrap())
}

fn table(items: &[&str]) -> ParameterObject {
    let mut object = ParameterObject::new()
        .with_parameter("RepeatNumMin", Parameter::Int(1))
        .with_parameter("RepeatNumMax", Parameter::Int(2))
        .with_parameter("ApproachType", Parameter::Int(0))
        .with_parameter("OccurrenceSpeedType", Parameter::Int(0))
        .with_parameter("ColumnNum", Parameter::Int(items.len() as i32));
    for (i, item) in items.iter().enumerate() {
        object = object
            .with_parameter(
                &format!("ItemName{:02}", i + 1),
                Parameter::String64((*item).to_owned()),
            )
            .with_parameter(
                &format!("ItemProbability{:02}", i + 1),
                Parameter::F32((100.0f32 / items.len() as f32).to_bits()),
            );
    }
    object
}

fn drop_fixture() -> ParameterIO {
    let header = ParameterObject::new()
        .with_parameter("TableNum", Parameter::Int(2))
        .with_parameter("Table01", Parameter::String64("Normal".to_owned()))
        .with_parameter("Table02", Parameter::String64("Normal2".to_owned()));
    let pio = ParameterIO::from_root(ParameterList::from_entries(
        vec![
            (roead::aamp::hash_name("Header"), header),
            (
                roead::aamp::hash_name("Normal"),
                table(&[
                    "Item_Enemy_27",
                    "Item_Enemy_28",
                    "Item_Enemy_26",
                    "Item_Enemy_29",
                    "Item_Enemy_30",
                    "Item_Enemy_31",
                ]),
            ),
            (roead::aamp::hash_name("Normal2"), table(&["Item_Enemy_27"])),
        ],
        vec![],
    ));
    through_binary(&pio)
}

fn umii_fixture() -> ParameterIO {
    let face = ParameterObject::new()
        .with_parameter("Type", Parameter::Int(3))
        .with_parameter("SkinColor", floats(6, &[0.5, 0.25, 0.125, 1.0]))
        .with_parameter("Scale", floats(4, &[1.0, 1.5, 2.0]))
        .with_parameter("Name", Parameter::StringRef("TripMaster".to_owned()))
        .with_parameter("Visible", Parameter::Bool(true));
    let pio = ParameterIO::from_root(ParameterList::from_entries(
        vec![(roead::aamp::hash_name("Face"), face)],
        vec![(
            roead::aamp::hash_name("Parts"),
            ParameterList::from_entries(
                vec![(
                    roead::aamp::hash_name("Hair"),
                    ParameterObject::new().with_parameter("Kind", Parameter::U32(7)),
                )],
                vec![],
            ),
        )],
    ));
    through_binary(&pio)
}

fn impulse(value: f32) -> ParameterList {
    ParameterList::from_entries(
        vec![(
            roead::aamp::hash_name("ImpulseData"),
            ParameterObject::new().with_parameter("Impulse", Parameter::F32(value.to_bits())),
        )],
        vec![],
    )
}

fn rgconfig_fixture() -> ParameterIO {
    let pio = ParameterIO::from_root(ParameterList::from_entries(
        vec![],
        vec![(
            roead::aamp::hash_name("ConfigRoot"),
            ParameterList::from_entries(
                vec![(
                    roead::aamp::hash_name("AttackTypeImpulseData"),
                    ParameterObject::new()
                        .with_parameter("Sword", Parameter::F32(2.0f32.to_bits()))
                        .with_parameter("Bomb", Parameter::F32(8.0f32.to_bits())),
                )],
                vec![
                    (roead::aamp::hash_name("ImpactImpulseInfo00"), impulse(1.0)),
                    (roead::aamp::hash_name("ImpactImpulseInfo01"), impulse(2.0)),
                ],
            ),
        )],
    ));
    through_binary(&pio)
}

#[test]
fn drop_serde() {
    let pio = drop_fixture();
    let drop = DropTable::try_from(&pio).unwrap();
    let data = pio_out(&drop.dup().to_pio()).to_binary();
    let pio2 = pio_in(&roead::aamp::ParameterIO::from_binary(&data).unwrap());
    let drop2 = DropTable::try_from(&pio2).unwrap();
    assert_eq!(drop, drop2);
    let names: Vec<String> = drop2.0.pairs().into_iter().map(|(k, _)| k).collect();
    assert_eq!(names, vec!["Normal", "Normal2"]);
}

#[test]
fn umii_serde() {
    let pio = umii_fixture();
    let umii = UMii::try_from(&pio).unwrap();
    let data = pio_out(&umii.dup().into_pio()).to_binary();
    let pio2 = pio_in(&roead::aamp::ParameterIO::from_binary(&data).unwrap());
    let umii2 = UMii::try_from(&pio2).unwrap();
    assert_eq!(umii, umii2);
    assert!(umii2.inner().object("Face").unwrap().param("Type").unwrap().same(&Parameter::Int(3)));
}

#[test]
fn rgconfig_serde() {
    let pio = rgconfig_fixture();
    let rgconfig = RagdollConfig::try_from(&pio).unwrap();
    let data = pio_out(&rgconfig.dup().into_pio()).to_binary();
    let pio2 = pio_in(&roead::aamp::ParameterIO::from_binary(&data).unwrap());
    let rgconfig2 = RagdollConfig::try_from(&pio2).unwrap();
    assert_eq!(rgconfig, rgconfig2);
    assert_eq!(rgconfig2.impact_impulse_info.len(), 2);
}

fn single(object: ParameterObject) -> ParameterIO {
    ParameterIO::from_root(ParameterList::from_entries(
        vec![(roead::aamp::hash_name("All"), object)],
        vec![],
    ))
}

#[test]
fn binary_keeps_scalars_and_strings() {
    let pio = single(
        ParameterObject::new()
            .with_parameter("a", Parameter::Bool(false))
            .with_parameter("b", Parameter::F32(0.5f32.to_bits()))
            .with_parameter("c", Parameter::Int(-3))
            .with_parameter("d", Parameter::U32(0xffff_ffff))
            .with_parameter("e", Parameter::String32("thirty-two".to_owned()))
            .with_parameter("f", Parameter::String64("sixty-four".to_owned()))
            .with_parameter("g", Parameter::String256("two-fifty-six".to_owned()))
            .with_parameter("h", Parameter::StringRef("ref".to_owned())),
    );
    assert!(through_binary(&pio).same(&pio));
}

#[test]
fn binary_keeps_vectors() {
    let pio = single(
        ParameterObject::new()
            .with_parameter("i", floats(3, &[1.0, 2.0]))
            .with_parameter("i3", floats(4, &[1.0, 2.0, 3.0]))
            .with_parameter("j", floats(5, &[1.0, 2.0, 3.0, 4.0]))
            .with_parameter("c", floats(6, &[0.1, 0.2, 0.3, 0.4]))
            .with_parameter("k", floats(16, &[0.0, 0.0, 0.0, 1.0])),
    );
    assert!(through_binary(&pio).same(&pio));
}

#[test]
fn binary_keeps_curves() {
    let mut curve = vec![1u32, 2u32];
    curve.extend((0..30).map(|i| (i as f32).to_bits()));
    let pio = single(ParameterObject::new().with_parameter("l", Parameter::Words(9, curve)));
    assert!(through_binary(&pio).same(&pio));
}

#[test]
fn names_are_hashed_as_the_format_hashes_them() {
    let object = ParameterObject::new().with_parameter("TableNum", Parameter::Int(1));
    assert_eq!(object.pairs()[0].0, roead::aamp::hash_name("TableNum"));
    assert_ne!(object.pairs()[0].0, 0);
    assert!(object.param("TableNum").is_some());
    assert!(object.param("Table01").is_none());
}

#[test]
fn checksums_are_those_of_the_format() {
    assert_eq!(ukmm::aamp::hash_name(""), 0);
    assert_eq!(ukmm::aamp::hash_name("a"), 0xE8B7_BE43);
    assert_eq!(ukmm::aamp::hash_name("123456789"), 0xCBF4_3926);
    let names = [
        "",
        "Header",
        "TableNum",
        "Table01",
        "ConfigRoot",
        "AttackTypeImpulseData",
        "ImpactImpulseInfo17",
        "Item_Enemy_27",
        "\u{e9}t\u{e9}",
        "\u{65e5}\u{672c}\u{8a9e}",
        "\u{1f600} and more",
    ];
    for name in names {
        assert_eq!(ukmm::aamp::hash_name(name), roead::aamp::hash_name(name));
    }
    assert_ne!(ukmm::aamp::hash_name("Table01"), ukmm::aamp::hash_name("Table02"));
}
