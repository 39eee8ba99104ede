use ukmm::aamp::{Parameter, ParameterIO, ParameterList, ParameterObject};
use ukmm::actor::params::umii::UMii;
use ukmm::actor::rgconfig::RagdollConfig;
use ukmm::datum::Datum;
use ukmm::prelude::Mergeable;
use ukmm::error::UKError;

fn hash(name: &str) -> u32 {
    roead::aamp::hash_name(name)
}

fn face(kind: i32, visible: bool) -> ParameterObject {
    ParameterObject::new()
        .with_parameter("Type", Parameter::Int(kind))
        .with_parameter("Visible", Parameter::Bool(visible))
}

fn umii(kind: i32, hair: u32, extra: bool) -> ParameterIO {
    let mut parts = vec![(
        hash("Hair"),
        ParameterObject::new().with_parameter("Kind", Parameter::U32(hair)),
    )];
    if extra {
        parts.push((
            hash("Beard"),
            ParameterObject::new().with_parameter("Kind", Parameter::U32(1)),
        ));
    }
    ParameterIO::from_root(ParameterList::from_entries(
        vec![(hash("Face"), face(kind, true))],
        vec![(hash("Parts"), ParameterList::from_entries(parts, vec![]))],
    ))
}

fn impulse(value: u32) -> ParameterList {
    ParameterList::from_entries(
        vec![(
            hash("ImpulseData"),
            ParameterObject::new().with_parameter("Impulse", Parameter::U32(value)),
        )],
        vec![],
    )
}

fn attacks(pairs: &[(&str, u32)]) -> ParameterObject {
    let mut object = ParameterObject::new();
    for (name, value) in pairs {
        object = object.with_parameter(name, Parameter::U32(*value));
    }
    object
}

fn config(attack: ParameterObject, impulses: &[u32]) -> ParameterIO {
    ParameterIO::from_root(ParameterList::from_entries(
        vec![],
        vec![(
            hash("ConfigRoot"),
            ParameterList::from_entries(
                vec![(hash("AttackTypeImpulseData"), attack)],
                impulses
                    .iter()
                    .enumerate()
                    .map(|(i, v)| (hash(&format!("ImpactImpulseInfo{:02}", i)), impulse(*v)))
                    .collect(),
            ),
        )],
    ))
}

fn rgconfig(sword: u32, impulses: &[u32]) -> ParameterIO {
    config(attacks(&[("Sword", sword), ("Bomb", 8)]), impulses)
}

#[test]
fn umii_diff() {
    let umii1 = UMii::try_from(&umii(3, 7, false)).unwrap();
    let umii2 = UMii::try_from(&umii(4, 7, true)).unwrap();
    let diff = umii1.diff(&umii2);
    let root = &diff.inner().param_root;
    assert_eq!(root.objects().len(), 1);
    assert_eq!(root.objects()[0].0, hash("Face"));
    let face = root.objects()[0].1.as_ref().unwrap();
    assert_eq!(face.len(), 1);
    assert!(face.param("Type").unwrap().same(&Parameter::Int(4)));
    assert_eq!(root.lists().len(), 1);
    let parts = root.lists()[0].1.as_ref().unwrap();
    assert_eq!(parts.objects().len(), 1);
    assert_eq!(parts.objects()[0].0, hash("Beard"));
}

#[test]
fn umii_merge_removes_what_the_other_has_removed() {
    let umii1 = UMii::try_from(&umii(3, 7, true)).unwrap();
    let umii2 = UMii::try_from(&umii(3, 7, false)).unwrap();
    let diff = umii1.diff(&umii2);
    let parts = diff.inner().param_root.lists()[0].1.as_ref().unwrap();
    assert_eq!(parts.objects().len(), 1);
    assert_eq!(parts.objects()[0].0, hash("Beard"));
    assert!(parts.objects()[0].1.is_none());
    let merged = umii1.merge(&diff);
    assert_eq!(umii2, merged);
    assert!(merged.inner().list("Parts").unwrap().object("Beard").is_none());
    assert!(merged.inner().list("Parts").unwrap().object("Hair").is_some());
}

#[test]
fn umii_merge() {
    let umii1 = UMii::try_from(&umii(3, 7, false)).unwrap();
    let umii2 = UMii::try_from(&umii(4, 9, true)).unwrap();
    let diff = umii1.diff(&umii2);
    let merged = umii1.merge(&diff);
    assert_eq!(umii2, merged);
}

#[test]
fn umii_diff_of_same_is_empty() {
    let umii1 = UMii::try_from(&umii(3, 7, true)).unwrap();
    let diff = umii1.diff(&umii1);
    assert!(diff.inner().param_root.objects().is_empty());
    assert!(diff.inner().param_root.lists().is_empty());
    assert!(umii1.merge(&diff).same(&umii1));
}

#[test]
fn umii_paths() {
    assert_eq!(UMii::path("Npc_TripMaster_00"), "Actor/UMii/Npc_TripMaster_00.bumii");
    assert!(UMii::path_matches("Actor/UMii/Npc_TripMaster_00.bumii"));
    assert!(!UMii::path_matches("Actor/UMii/Npc_TripMaster_00.bdrop"));
}

#[test]
fn rgconfig_diff() {
    let rgconfig1 = RagdollConfig::try_from(&rgconfig(2, &[1, 2])).unwrap();
    let rgconfig2 = RagdollConfig::try_from(&rgconfig(3, &[1, 5, 9])).unwrap();
    let diff = rgconfig1.diff(&rgconfig2);
    assert_eq!(diff.attack_type_impulse_data.len(), 1);
    assert!(diff.attack_type_impulse_data.param("Sword").unwrap().same(&Parameter::U32(3)));
    let places: Vec<usize> = diff.impact_impulse_info.pairs().iter().map(|e| e.0).collect();
    assert_eq!(places, vec![1, 2]);
}

#[test]
fn rgconfig_merge() {
    let rgconfig1 = RagdollConfig::try_from(&rgconfig(2, &[1, 2])).unwrap();
    let rgconfig2 = RagdollConfig::try_from(&rgconfig(3, &[1, 5, 9])).unwrap();
    let diff = rgconfig1.diff(&rgconfig2);
    let merged = rgconfig1.merge(&diff);
    assert_eq!(rgconfig2, merged);
}

#[test]
fn rgconfig_merge_removes_what_the_other_has_removed() {
    let base = RagdollConfig::try_from(&rgconfig(2, &[1, 2, 3])).unwrap();
    let other =
        RagdollConfig::try_from(&config(attacks(&[("Bomb", 9), ("Arrow", 1)]), &[1, 7])).unwrap();
    let diff = base.diff(&other);
    let slots: Vec<(u32, bool)> =
        diff.attack_type_impulse_data.0.entries().iter().map(|e| (e.0, e.1.is_some())).collect();
    let mut expected = vec![(hash("Bomb"), true), (hash("Arrow"), true), (hash("Sword"), false)];
    expected.sort();
    assert_eq!(slots, expected);
    let places: Vec<(usize, bool)> =
        diff.impact_impulse_info.entries().iter().map(|e| (e.0, e.1.is_some())).collect();
    assert_eq!(places, vec![(1, true), (2, false)]);
    let merged = base.merge(&diff);
    assert_eq!(other, merged);
    assert!(merged.attack_type_impulse_data.param("Sword").is_none());
    assert_eq!(merged.impact_impulse_info.len(), 2);
    assert!(merged.impact_impulse_info.get(&2).is_none());
    let same = base.diff(&base);
    assert_eq!(same.attack_type_impulse_data.len(), 0);
    assert!(same.impact_impulse_info.is_empty());
}

#[test]
fn rgconfig_merge_of_diff_is_other_whatever_the_order_of_the_impulses() {
    let base = RagdollConfig::try_from(&config(attacks(&[("Sword", 2), ("Bomb", 8)]), &[1, 2]))
        .unwrap();
    let other = RagdollConfig::try_from(&config(attacks(&[("Bomb", 8), ("Sword", 3)]), &[1]))
        .unwrap();
    let merged = base.merge(&base.diff(&other));
    assert_eq!(other, merged);
}

#[test]
fn rgconfig_is_written_by_place() {
    let config = RagdollConfig::try_from(&rgconfig(2, &[1, 2, 3])).unwrap();
    let pio = config.into_pio();
    assert!(pio.same(&rgconfig(2, &[1, 2, 3])));
    let root = pio.list("ConfigRoot").unwrap();
    assert_eq!(root.lists()[2].0, hash("ImpactImpulseInfo02"));
}

#[test]
fn rgconfig_missing_parts_are_named() {
    assert_eq!(
        RagdollConfig::try_from(&ParameterIO::new()).unwrap_err(),
        UKError::MissingAampKey("Ragdoll config missing config root list")
    );
    let pio = ParameterIO::from_root(ParameterList::from_entries(
        vec![],
        vec![(hash("ConfigRoot"), ParameterList::new())],
    ));
    assert_eq!(
        RagdollConfig::try_from(&pio).unwrap_err(),
        UKError::MissingAampKey("Ragdoll config missing attack type impulse data")
    );
}

#[test]
fn rgconfig_paths() {
    assert_eq!(
        RagdollConfig::path("Moriblin_Blue_Bomb"),
        "Actor/RagdollConfig/Moriblin_Blue_Bomb.brgconfig"
    );
    assert!(RagdollConfig::path_matches("Actor/RagdollConfig/Moriblin_Blue_Bomb.brgconfig"));
}
