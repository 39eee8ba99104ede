//! The tips files: the hints that the game shows, each under the
//! identifier of its message, in the order of the identifiers.

use crate::byml::{
    named_by, named_entries, read_named, values_node, values_of, view_array, Byml, BymlView,
};
use crate::datum::Datum;
use crate::error::{read_as, UKError};
use crate::util::ascending::{ascending, sorted_collected, sorted_diff, sorted_merge};
use crate::util::collections::{live_pairs, SortedDeleteMap};
use crate::util::delta::is_live;
use vstd::prelude::*;

verus! {

/// The tips of one file, each under the identifier of its message. In a
/// diff, a tip that was removed is a tombstone.
#[derive(Debug)]
pub struct Tips(pub SortedDeleteMap<String, Byml>);

impl DeepView for Tips {
    type V = Seq<(Seq<char>, Option<BymlView>)>;

    open spec fn deep_view(&self) -> Self::V {
        self.0@
    }
}

/// Two values are equal where they hold the same tips.
impl PartialEq for Tips {
    fn eq(&self, other: &Self) -> (r: bool) {
        self.same(other)
    }
}

impl vstd::std_specs::cmp::PartialEqSpecImpl for Tips {
    open spec fn obeys_eq_spec() -> bool {
        true
    }

    open spec fn eq_spec(&self, other: &Self) -> bool {
        self.deep_view() == other.deep_view()
    }
}

impl Datum for Tips {
    fn same(&self, other: &Self) -> (r: bool) {
        self.0.same(&other.0)
    }

    fn dup(&self) -> (r: Self) {
        Tips(self.0.dup())
    }
}

/// The failure for a tip without a message identifier.
pub open spec fn missing_id() -> UKError {
    UKError::MissingBymlKey("Tips file entry missing MessageId")
}

/// The tips that a node holds: the node must be an array of maps, each
/// with its identifier under `MessageId`. Of two tips with one identifier
/// the later stays.
pub open spec fn tips_of(v: BymlView) -> Result<Seq<(Seq<char>, Option<BymlView>)>, UKError> {
    match view_array(v) {
        Err(e) => Err(e),
        Ok(items) => match named_entries(items, "MessageId"@, missing_id()) {
            Err(e) => Err(e),
            Ok(pairs) => Ok(sorted_collected::<String, BymlView>(pairs)),
        },
    }
}

/// The node that the tips are written out as: the array of the live tips,
/// in the order of their identifiers.
pub open spec fn tips_node(t: Seq<(Seq<char>, Option<BymlView>)>) -> BymlView {
    BymlView::Array(values_of(live_pairs(t)))
}

impl Tips {
    /// Reads the tips from a node.
    pub fn try_from(byml: &Byml) -> (r: Result<Self, UKError>)
        ensures
            read_as(r) == tips_of(byml.tree()),
    {
        let items = byml.as_array()?;
        let pairs = read_named(
            items,
            "MessageId",
            UKError::MissingBymlKey("Tips file entry missing MessageId"),
        )?;
        Ok(Tips(SortedDeleteMap::from_pairs(pairs)))
    }

    /// The node that the tips are written out as.
    pub fn to_byml(&self) -> (r: Byml)
        ensures
            r.tree() == tips_node(self.deep_view()),
    {
        values_node(self.0.pairs())
    }

    /// Whether `path` is the path of a tips file: whether its file has a
    /// name that begins with `Tips` and the extension `byml` or `sbyml`.
    pub fn path_matches(path: &str) -> (r: bool)
        ensures
            r == crate::resource::claims(crate::resource::ResourceKind::Tips, path@),
    {
        (crate::resource::has_extension(path, "sbyml") || crate::resource::has_extension(
            path,
            "byml",
        )) && crate::resource::stem_begins(path, "Tips")
    }
}

/// Materialized tips that carry their own identifiers are read back as
/// they were written out.
pub proof fn lemma_tips_round_trip(t: Seq<(Seq<char>, Option<BymlView>)>)
    requires
        ascending::<String, Option<BymlView>>(t),
        is_live(t),
        named_by(live_pairs(t), "MessageId"@, missing_id()),
    ensures
        tips_of(tips_node(t)) == Ok::<Seq<(Seq<char>, Option<BymlView>)>, UKError>(t),
{
    crate::byml::lemma_named_round_trip(live_pairs(t), "MessageId"@, missing_id());
    crate::util::collections::lemma_sorted_collected_live_pairs::<String, BymlView>(t);
}


/// A diff holds the tips that are new or changed and a tombstone for each
/// tip that only the base has. A merge keeps the tips that the diff does not
/// delete, changed where the diff changes them, and the tips that it adds.
/// Both are in the order of the identifiers.
impl crate::prelude::Mergeable for Tips {
    open spec fn alike(a: Self::V, b: Self::V) -> bool {
        true
    }

    open spec fn diff_of(base: Self::V, other: Self::V) -> Self::V {
        sorted_diff::<String, BymlView>(base, other)
    }

    open spec fn merge_of(base: Self::V, diff: Self::V) -> Self::V {
        sorted_merge::<String, BymlView>(base, diff)
    }

    fn diff(&self, other: &Self) -> (r: Self) {
        Tips(self.0.diff(&other.0))
    }

    fn merge(&self, diff: &Self) -> (r: Self) {
        Tips(self.0.merge(&diff.0))
    }
}

} // verus!
