//! The quest product list: every quest of the game, under its name, in the
//! order of the file.

use crate::byml::{
    named_by, named_entries, read_named, values_node, values_of, view_array, Byml, BymlView,
};
use crate::datum::Datum;
use crate::error::{read_as, UKError};
use crate::util::collections::{collected, live_pairs, DeleteMap};
use crate::util::delta::{delete_diff, delete_merge, is_live};
use vstd::prelude::*;

verus! {

/// The quests of the game, each under its name. In a diff, a quest that
/// was removed is a tombstone.
#[derive(Debug)]
pub struct QuestProduct(pub DeleteMap<String, Byml>);

impl DeepView for QuestProduct {
    type V = Seq<(Seq<char>, Option<BymlView>)>;

    open spec fn deep_view(&self) -> Self::V {
        self.0@
    }
}

/// Two values are equal where they hold the same quests in the same order.
impl PartialEq for QuestProduct {
    fn eq(&self, other: &Self) -> (r: bool) {
        self.same(other)
    }
}

impl vstd::std_specs::cmp::PartialEqSpecImpl for QuestProduct {
    open spec fn obeys_eq_spec() -> bool {
        true
    }

    open spec fn eq_spec(&self, other: &Self) -> bool {
        self.deep_view() == other.deep_view()
    }
}

impl Datum for QuestProduct {
    fn same(&self, other: &Self) -> (r: bool) {
        self.0.same(&other.0)
    }

    fn dup(&self) -> (r: Self) {
        QuestProduct(self.0.dup())
    }
}

/// The failure for a quest without a name.
pub open spec fn missing_name() -> UKError {
    UKError::MissingBymlKey("Quest entry missing name")
}

/// The quests that a node holds: the node must be an array of maps, each
/// with its name under `Name`. A name that comes twice keeps its first
/// place and its last quest.
pub open spec fn product_of(v: BymlView) -> Result<Seq<(Seq<char>, Option<BymlView>)>, UKError> {
    match view_array(v) {
        Err(e) => Err(e),
        Ok(items) => match named_entries(items, "Name"@, missing_name()) {
            Err(e) => Err(e),
            Ok(pairs) => Ok(collected(pairs)),
        },
    }
}

/// The node that the quests are written out as: the array of the live
/// quests, in order.
pub open spec fn product_node(q: Seq<(Seq<char>, Option<BymlView>)>) -> BymlView {
    BymlView::Array(values_of(live_pairs(q)))
}

impl QuestProduct {
    /// Reads the quests from a node.
    pub fn try_from(byml: &Byml) -> (r: Result<Self, UKError>)
        ensures
            read_as(r) == product_of(byml.tree()),
    {
        let items = byml.as_array()?;
        let pairs = read_named(items, "Name", UKError::MissingBymlKey("Quest entry missing name"))?;
        Ok(QuestProduct(DeleteMap::from_pairs(pairs)))
    }

    /// The node that the quests are written out as.
    pub fn to_byml(&self) -> (r: Byml)
        ensures
            r.tree() == product_node(self.deep_view()),
    {
        values_node(self.0.pairs())
    }

    /// Whether `path` is the path of the quest product list: whether its
    /// file is called `QuestProduct` and has the extension `sbquestpack`, or
    /// `bquestpack` as in a canonical path.
    pub fn path_matches(path: &str) -> (r: bool)
        ensures
            r == crate::resource::claims(crate::resource::ResourceKind::QuestProduct, path@),
    {
        crate::resource::has_stem(path, "QuestProduct") && (crate::resource::has_extension(
            path,
            "sbquestpack",
        ) || crate::resource::has_extension(path, "bquestpack"))
    }

    /// The one place of the quest product list among the game's files.
    pub fn path() -> (r: &'static str)
        ensures
            r == "Pack/TitleBG.pack//Quest/QuestProduct.sbquestpack",
    {
        "Pack/TitleBG.pack//Quest/QuestProduct.sbquestpack"
    }
}

/// A materialized quest list whose quests carry their own names is read
/// back as it was written out.
pub proof fn lemma_product_round_trip(q: Seq<(Seq<char>, Option<BymlView>)>)
    requires
        crate::assoc::distinct_keys(q),
        is_live(q),
        named_by(live_pairs(q), "Name"@, missing_name()),
    ensures
        product_of(product_node(q)) == Ok::<Seq<(Seq<char>, Option<BymlView>)>, UKError>(q),
{
    crate::byml::lemma_named_round_trip(live_pairs(q), "Name"@, missing_name());
    crate::util::collections::lemma_collected_live_pairs(q);
}


/// A diff holds the quests that are new or changed, in the order of the
/// other value, then a tombstone for each quest that only the base has. A
/// merge keeps the quests that the diff does not delete, in their order and
/// changed where the diff changes them, then the quests that it adds.
impl crate::prelude::Mergeable for QuestProduct {
    open spec fn alike(a: Self::V, b: Self::V) -> bool {
        true
    }

    open spec fn diff_of(base: Self::V, other: Self::V) -> Self::V {
        delete_diff(base, other)
    }

    open spec fn merge_of(base: Self::V, diff: Self::V) -> Self::V {
        delete_merge(base, diff)
    }

    fn diff(&self, other: &Self) -> (r: Self) {
        QuestProduct(self.0.diff(&other.0))
    }

    fn merge(&self, diff: &Self) -> (r: Self) {
        QuestProduct(self.0.merge(&diff.0))
    }
}

} // verus!
