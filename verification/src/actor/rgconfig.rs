//! The ragdoll configuration of an actor: the impulses by kind of attack,
//! and the lists of impulses on impact, by their place in the file.

use crate::aamp::{
    name_hash, ArchiveView, ListView, ParameterIO, ParameterList, ParameterObject, ParameterView,
};
use crate::datum::{Datum, OrdKey};
use crate::error::{read_as, UKError};
use crate::text::{numbered, two_digits};
use crate::util::ascending::{ascending, sorted_collected, sorted_diff, sorted_merge};
use crate::util::collections::{collected, live_entries, live_pairs, SortedDeleteMap};
use crate::util::delta::{is_live, live_value};
use crate::util::{diff_pobj, merge_pobj, simple_index_diff, simple_index_merge};
use vstd::prelude::*;

verus! {

/// The ragdoll configuration of an actor. In a diff, an impulse or a list
/// on impact that was removed is a tombstone.
#[derive(Debug)]
pub struct RagdollConfig {
    pub attack_type_impulse_data: ParameterObject,
    pub impact_impulse_info: SortedDeleteMap<usize, ParameterList>,
}

/// The mathematical value of a ragdoll configuration.
pub struct RagdollView {
    pub attack_type_impulse_data: Seq<(u32, Option<ParameterView>)>,
    pub impact_impulse_info: Seq<(usize, Option<ListView>)>,
}

impl DeepView for RagdollConfig {
    type V = RagdollView;

    open spec fn deep_view(&self) -> RagdollView {
        RagdollView {
            attack_type_impulse_data: self.attack_type_impulse_data.deep_view(),
            impact_impulse_info: self.impact_impulse_info@,
        }
    }
}

/// Two configurations are equal where they have the same value.
impl PartialEq for RagdollConfig {
    fn eq(&self, other: &Self) -> (r: bool) {
        self.same(other)
    }
}

impl vstd::std_specs::cmp::PartialEqSpecImpl for RagdollConfig {
    open spec fn obeys_eq_spec() -> bool {
        true
    }

    open spec fn eq_spec(&self, other: &Self) -> bool {
        self.deep_view() == other.deep_view()
    }
}

impl Datum for RagdollConfig {
    fn same(&self, other: &Self) -> (r: bool) {
        self.attack_type_impulse_data.same(&other.attack_type_impulse_data)
            && self.impact_impulse_info.same(&other.impact_impulse_info)
    }

    fn dup(&self) -> (r: Self) {
        RagdollConfig {
            attack_type_impulse_data: self.attack_type_impulse_data.dup(),
            impact_impulse_info: self.impact_impulse_info.dup(),
        }
    }
}

/// Each list beside its place in the sequence, counted from 0.
pub open spec fn numbered_lists(lists: Seq<(u32, ListView)>) -> Seq<(usize, ListView)> {
    Seq::new(lists.len(), |i: int| (i as usize, lists[i].1))
}

/// The configuration that an archive holds: it must have the list
/// `ConfigRoot`, and in it the object `AttackTypeImpulseData`. The live
/// nested lists of `ConfigRoot` are taken by their places.
pub open spec fn ragdoll_of(a: ArchiveView) -> Result<RagdollView, UKError> {
    match live_value(a.root.lists, name_hash("ConfigRoot"@)) {
        None => Err(UKError::MissingAampKey("Ragdoll config missing config root list")),
        Some(root) => match live_value(root.objects, name_hash("AttackTypeImpulseData"@)) {
            None => Err(UKError::MissingAampKey("Ragdoll config missing attack type impulse data")),
            Some(data) => Ok(
                RagdollView {
                    attack_type_impulse_data: data,
                    impact_impulse_info: sorted_collected::<usize, ListView>(
                        numbered_lists(live_pairs(root.lists)),
                    ),
                },
            ),
        },
    }
}

/// Each list under the checksum of `ImpactImpulseInfo` and the two digits
/// of its place.
pub open spec fn named_lists(info: Seq<(usize, ListView)>) -> Seq<(u32, ListView)> {
    info.map_values(
        |e: (usize, ListView)|
            (name_hash("ImpactImpulseInfo"@ + two_digits(e.0 as nat)), e.1),
    )
}

/// The archive that a configuration is written out as: the live impulses
/// and the live lists on impact.
pub open spec fn ragdoll_archive(c: RagdollView) -> ArchiveView {
    ArchiveView {
        version: 0,
        data_type: "xml"@,
        root: ListView {
            objects: Seq::empty(),
            lists: seq![
                (
                    name_hash("ConfigRoot"@),
                    Some(
                        ListView {
                            objects: seq![
                                (
                                    name_hash("AttackTypeImpulseData"@),
                                    Some(c.attack_type_impulse_data),
                                ),
                            ],
                            lists: collected(named_lists(live_pairs(c.impact_impulse_info))),
                        },
                    ),
                ),
            ],
        },
    }
}

impl RagdollConfig {
    /// Reads the configuration from an archive.
    pub fn try_from(pio: &ParameterIO) -> (r: Result<Self, UKError>)
        ensures
            read_as(r) == ragdoll_of(pio.deep_view()),
    {
        let root = match pio.list("ConfigRoot") {
            Some(l) => l,
            None => {
                return Err(UKError::MissingAampKey("Ragdoll config missing config root list"));
            },
        };
        let data = match root.object("AttackTypeImpulseData") {
            Some(o) => o,
            None => {
                return Err(
                    UKError::MissingAampKey("Ragdoll config missing attack type impulse data"),
                );
            },
        };
        let live = live_entries(root.lists());
        let ghost lists = live.deep_view();
        let mut pairs: Vec<(usize, ParameterList)> = Vec::new();
        let mut i: usize = 0;
        while i < live.len()
            invariant
                i <= live.len(),
                lists == live.deep_view(),
                pairs.len() == i,
                forall|j: int|
                    0 <= j < i ==> #[trigger] pairs.deep_view()[j] == (j as usize, lists[j].1),
            decreases live.len() - i,
        {
            let ghost before = pairs.deep_view();
            pairs.push((i, live[i].1.dup()));
            proof {
                assert(pairs.deep_view() =~= before.push((i, lists[i as int].1)));
            }
            i = i + 1;
        }
        proof {
            assert(pairs.deep_view() =~= numbered_lists(lists));
        }
        Ok(
            RagdollConfig {
                attack_type_impulse_data: data.dup(),
                impact_impulse_info: SortedDeleteMap::from_pairs(pairs),
            },
        )
    }

    /// The archive that the configuration is written out as.
    pub fn into_pio(self) -> (r: ParameterIO)
        ensures
            r.deep_view() == ragdoll_archive(self.deep_view()),
    {
        let info = self.impact_impulse_info.pairs();
        let ghost s = info.deep_view();
        let mut named: Vec<(u32, ParameterList)> = Vec::new();
        let mut i: usize = 0;
        while i < info.len()
            invariant
                i <= info.len(),
                s == info.deep_view(),
                named.len() == i,
                forall|j: int|
                    0 <= j < i ==> #[trigger] named.deep_view()[j] == named_lists(s)[j],
            decreases info.len() - i,
        {
            let ghost before = named.deep_view();
            let key = numbered("ImpactImpulseInfo", info[i].0);
            named.push((crate::aamp::hash_name(key.as_str()), info[i].1.dup()));
            proof {
                assert(named.deep_view() =~= before.push(named_lists(s)[i as int]));
            }
            i = i + 1;
        }
        proof {
            assert(named.deep_view() =~= named_lists(s));
        }
        let mut objects: Vec<(u32, ParameterObject)> = Vec::new();
        objects.push(
            (crate::aamp::hash_name("AttackTypeImpulseData"), self.attack_type_impulse_data),
        );
        proof {
            crate::util::collections::lemma_collected_one(objects.deep_view()[0]);
            assert(objects.deep_view() =~= seq![objects.deep_view()[0]]);
        }
        let config = ParameterList::from_entries(objects, named);
        let mut lists: Vec<(u32, ParameterList)> = Vec::new();
        lists.push((crate::aamp::hash_name("ConfigRoot"), config));
        let none: Vec<(u32, ParameterObject)> = Vec::new();
        proof {
            crate::util::collections::lemma_collected_one(lists.deep_view()[0]);
            assert(lists.deep_view() =~= seq![lists.deep_view()[0]]);
            assert(none.deep_view() =~= Seq::empty());
            assert(collected(none.deep_view()) =~= Seq::empty());
        }
        ParameterIO::from_root(ParameterList::from_entries(none, lists))
    }

    /// The canonical path of the ragdoll configuration `name`.
    pub fn path(name: &str) -> (r: String)
        ensures
            r@ == "Actor/RagdollConfig/"@ + name@ + ".brgconfig"@,
    {
        crate::text::join3("Actor/RagdollConfig/", name, ".brgconfig")
    }

    /// Whether `path` is the path of a ragdoll configuration: whether its
    /// file has the extension `brgconfig`.
    pub fn path_matches(path: &str) -> (r: bool)
        ensures
            r == (crate::resource::extension(path@) == Some("brgconfig"@)),
    {
        crate::resource::has_extension(path, "brgconfig")
    }
}

/// The diff between two configurations: among the impulses, and among
/// the lists on impact, what is new or changed, and a tombstone for what
/// is gone.
pub open spec fn ragdoll_diff(base: RagdollView, other: RagdollView) -> RagdollView {
    RagdollView {
        attack_type_impulse_data: sorted_diff::<u32, ParameterView>(
            base.attack_type_impulse_data,
            other.attack_type_impulse_data,
        ),
        impact_impulse_info: sorted_diff::<usize, ListView>(
            base.impact_impulse_info,
            other.impact_impulse_info,
        ),
    }
}

/// A diff applied to a configuration: what the diff deletes is gone, what
/// it holds stands with its value, the rest stays.
pub open spec fn ragdoll_merge(base: RagdollView, diff: RagdollView) -> RagdollView {
    RagdollView {
        attack_type_impulse_data: sorted_merge::<u32, ParameterView>(
            base.attack_type_impulse_data,
            diff.attack_type_impulse_data,
        ),
        impact_impulse_info: sorted_merge::<usize, ListView>(
            base.impact_impulse_info,
            diff.impact_impulse_info,
        ),
    }
}

/// Whether a configuration is one that was read or built, no diff: the
/// impulses stand in the order of their checksums, the lists on impact in
/// the order of their places, and nothing is a tombstone.
pub open spec fn ragdoll_valid(c: RagdollView) -> bool {
    &&& ascending::<u32, Option<ParameterView>>(c.attack_type_impulse_data)
    &&& is_live(c.attack_type_impulse_data)
    &&& ascending::<usize, Option<ListView>>(c.impact_impulse_info)
    &&& is_live(c.impact_impulse_info)
}

/// The diff/merge identity for ragdoll configurations: merging the diff
/// from `base` to `other` onto `base` gives `other`. An impulse or a list
/// on impact that `other` has removed does not come back.
pub proof fn lemma_ragdoll_merge_of_diff(base: RagdollView, other: RagdollView)
    requires
        ragdoll_valid(base),
        ragdoll_valid(other),
    ensures
        ragdoll_merge(base, ragdoll_diff(base, other)) == other,
{
    crate::util::ascending::lemma_sorted_merge_of_diff_is_other::<u32, ParameterView>(
        base.attack_type_impulse_data,
        other.attack_type_impulse_data,
    );
    crate::util::ascending::lemma_sorted_merge_of_diff_is_other::<usize, ListView>(
        base.impact_impulse_info,
        other.impact_impulse_info,
    );
}

/// The diff of a configuration against itself has no entry and no
/// tombstone.
pub proof fn lemma_ragdoll_diff_of_same_is_empty(x: RagdollView)
    requires
        ragdoll_valid(x),
    ensures
        ragdoll_diff(x, x) == (RagdollView {
            attack_type_impulse_data: Seq::empty(),
            impact_impulse_info: Seq::empty(),
        }),
{
    crate::util::ascending::lemma_sorted_diff_of_same_is_empty::<u32, ParameterView>(
        x.attack_type_impulse_data,
    );
    crate::util::ascending::lemma_sorted_diff_of_same_is_empty::<usize, ListView>(
        x.impact_impulse_info,
    );
}

/// Reading back what was written: for a configuration without a
/// tombstone whose lists on impact stand at the places 0, 1, 2 and so on,
/// and where the names that the lists are written under have checksums
/// that differ, reading the archive that the configuration is written out
/// as gives the configuration again.
pub proof fn lemma_ragdoll_read_of_written(c: RagdollView)
    requires
        is_live(c.impact_impulse_info),
        forall|i: int|
            0 <= i < c.impact_impulse_info.len() ==> (#[trigger] c.impact_impulse_info[i]).0 == i,
        crate::assoc::distinct_keys(named_lists(live_pairs(c.impact_impulse_info))),
    ensures
        ragdoll_of(ragdoll_archive(c)) == Ok::<RagdollView, UKError>(c),
{
    let info = c.impact_impulse_info;
    let pairs = live_pairs(info);
    let named = named_lists(pairs);
    let lists = collected(named);
    crate::util::collections::lemma_live_pairs_of_live(info);
    crate::util::collections::lemma_collected_of_distinct(named);
    crate::util::collections::lemma_live_pairs_of_all_live(named);
    assert(numbered_lists(named) =~= pairs);
    assert(ascending::<usize, Option<ListView>>(info)) by {
        assert forall|i: int, j: int| 0 <= i < j < info.len() implies <usize as OrdKey>::before(
            (#[trigger] info[i]).0,
            (#[trigger] info[j]).0,
        ) by {
            assert(info[i].0 == i);
            assert(info[j].0 == j);
        }
    }
    crate::util::collections::lemma_sorted_collected_live_pairs::<usize, ListView>(info);
    let a = ragdoll_archive(c);
    assert(a.root.lists.len() == 1);
    assert(crate::assoc::distinct_keys(a.root.lists));
    crate::assoc::lemma_lookup_at(a.root.lists, 0);
    let root = a.root.lists[0].1.unwrap();
    assert(root.objects.len() == 1);
    assert(crate::assoc::distinct_keys(root.objects));
    crate::assoc::lemma_lookup_at(root.objects, 0);
    assert(root.lists == lists);
}

/// A diff holds the impulses and the lists on impact that are new or
/// changed, and a tombstone for each that is gone. A merge takes out of
/// the base what the diff deletes and lays the rest of the diff over it.
impl crate::prelude::Mergeable for RagdollConfig {
    open spec fn alike(a: RagdollView, b: RagdollView) -> bool {
        true
    }

    open spec fn diff_of(base: RagdollView, other: RagdollView) -> RagdollView {
        ragdoll_diff(base, other)
    }

    open spec fn merge_of(base: RagdollView, diff: RagdollView) -> RagdollView {
        ragdoll_merge(base, diff)
    }

    fn diff(&self, other: &Self) -> (r: Self) {
        RagdollConfig {
            attack_type_impulse_data: diff_pobj(
                &self.attack_type_impulse_data,
                &other.attack_type_impulse_data,
            ),
            impact_impulse_info: simple_index_diff(
                &self.impact_impulse_info,
                &other.impact_impulse_info,
            ),
        }
    }

    fn merge(&self, diff: &Self) -> (r: Self) {
        RagdollConfig {
            attack_type_impulse_data: merge_pobj(
                &self.attack_type_impulse_data,
                &diff.attack_type_impulse_data,
            ),
            impact_impulse_info: simple_index_merge(
                &self.impact_impulse_info,
                &diff.impact_impulse_info,
            ),
        }
    }
}

} // verus!
