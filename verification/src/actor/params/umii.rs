//! The looks of a character: a parameter archive that is merged as it is,
//! without a typed reading.

use crate::aamp::{ArchiveView, ParameterIO};
use crate::datum::Datum;
use crate::util::nested::{list_diff, list_merge};
use crate::util::{diff_plist, merge_plist};
use vstd::prelude::*;

verus! {

/// The parameter archive of a character's looks.
#[derive(Debug)]
pub struct UMii(pub ParameterIO);

impl DeepView for UMii {
    type V = ArchiveView;

    open spec fn deep_view(&self) -> ArchiveView {
        self.0.deep_view()
    }
}

/// Two values are equal where their archives have the same value.
impl PartialEq for UMii {
    fn eq(&self, other: &Self) -> (r: bool) {
        self.same(other)
    }
}

impl vstd::std_specs::cmp::PartialEqSpecImpl for UMii {
    open spec fn obeys_eq_spec() -> bool {
        true
    }

    open spec fn eq_spec(&self, other: &Self) -> bool {
        self.deep_view() == other.deep_view()
    }
}

impl Datum for UMii {
    fn same(&self, other: &Self) -> (r: bool) {
        self.0.same(&other.0)
    }

    fn dup(&self) -> (r: Self) {
        UMii(self.0.dup())
    }
}

/// The archive that a list stands for when nothing else is said of it:
/// version 0 and the kind "xml".
pub open spec fn archive_of(root: crate::aamp::ListView) -> ArchiveView {
    ArchiveView { version: 0, data_type: "xml"@, root }
}

impl UMii {
    /// Takes the archive as it is.
    pub fn from(pio: ParameterIO) -> (r: Self)
        ensures
            r.deep_view() == pio.deep_view(),
    {
        UMii(pio)
    }

    /// Takes a copy of the archive.
    pub fn try_from(pio: &ParameterIO) -> (r: Result<Self, crate::error::UKError>)
        ensures
            crate::error::read_as(r) == Ok::<ArchiveView, crate::error::UKError>(pio.deep_view()),
    {
        Ok(UMii(pio.dup()))
    }

    /// The archive inside.
    pub fn inner(&self) -> (r: &ParameterIO)
        ensures
            r.deep_view() == self.deep_view(),
    {
        &self.0
    }

    /// Gives the archive back.
    pub fn into_pio(self) -> (r: ParameterIO)
        ensures
            r.deep_view() == self.deep_view(),
    {
        self.0
    }

    /// The canonical path of the looks of the character `name`.
    pub fn path(name: &str) -> (r: String)
        ensures
            r@ == "Actor/UMii/"@ + name@ + ".bumii"@,
    {
        crate::text::join3("Actor/UMii/", name, ".bumii")
    }

    /// Whether `path` is the path of a character's looks: whether its file
    /// has the extension `bumii`.
    pub fn path_matches(path: &str) -> (r: bool)
        ensures
            r == (crate::resource::extension(path@) == Some("bumii"@)),
    {
        crate::resource::has_extension(path, "bumii")
    }
}


/// The diff/merge identity for a character's looks: where the archive
/// `other` is of version 0 and of the kind "xml", no name stands twice or
/// as a tombstone at any level of the two root lists, and at every level
/// the names that both have stand in `other` in the order of `base` and
/// before the new ones, merging the diff from `base` to `other` onto `base`
/// gives `other`: what `other` has removed is gone.
pub proof fn lemma_umii_merge_of_diff(base: ArchiveView, other: ArchiveView)
    requires
        other.version == 0,
        other.data_type == "xml"@,
        crate::util::nested::list_valid(base.root),
        crate::util::nested::list_valid(other.root),
        crate::util::nested::list_keeps_order(base.root, other.root),
    ensures
        archive_of(list_merge(base.root, archive_of(list_diff(base.root, other.root)).root))
            == other,
{
    crate::util::nested::lemma_list_merge_of_diff_is_other(base.root, other.root);
}

/// The diff/merge identity for all looks, whatever the order of their
/// names: where no name stands twice or as a tombstone at any level of the
/// two root lists, merging the diff from `base` to `other` onto `base`
/// gives an archive of version 0 and of the kind "xml" whose root list
/// holds what that of `other` holds, all the way down.
pub proof fn lemma_umii_merge_of_diff_holds_other(base: ArchiveView, other: ArchiveView)
    requires
        crate::util::nested::list_valid(base.root),
        crate::util::nested::list_valid(other.root),
    ensures
        crate::util::nested::list_alike(
            archive_of(list_merge(base.root, archive_of(list_diff(base.root, other.root)).root)).root,
            other.root,
        ),
        archive_of(
            list_merge(base.root, archive_of(list_diff(base.root, other.root)).root),
        ).version == 0,
        archive_of(
            list_merge(base.root, archive_of(list_diff(base.root, other.root)).root),
        ).data_type == "xml"@,
{
    crate::util::nested::lemma_list_merge_of_diff_holds_other(base.root, other.root);
}

/// The diff of a character's looks against themselves has no entry and no
/// tombstone.
pub proof fn lemma_umii_diff_of_same_is_empty(x: ArchiveView)
    requires
        crate::util::nested::list_valid(x.root),
    ensures
        list_diff(x.root, x.root) == (crate::aamp::ListView {
            objects: Seq::empty(),
            lists: Seq::empty(),
        }),
{
    crate::util::nested::lemma_list_diff_of_same_is_empty(x.root);
}

/// A diff is the diff of the root lists, and a merge their merge, in an
/// archive of version 0 and of the kind "xml".
impl crate::prelude::Mergeable for UMii {
    open spec fn alike(a: ArchiveView, b: ArchiveView) -> bool {
        true
    }

    open spec fn diff_of(base: ArchiveView, other: ArchiveView) -> ArchiveView {
        archive_of(list_diff(base.root, other.root))
    }

    open spec fn merge_of(base: ArchiveView, diff: ArchiveView) -> ArchiveView {
        archive_of(list_merge(base.root, diff.root))
    }

    fn diff(&self, other: &Self) -> (r: Self) {
        UMii(
            ParameterIO {
                version: 0,
                data_type: "xml".to_owned(),
                param_root: diff_plist(&self.0.param_root, &other.0.param_root),
            },
        )
    }

    fn merge(&self, diff: &Self) -> (r: Self) {
        UMii(
            ParameterIO {
                version: 0,
                data_type: "xml".to_owned(),
                param_root: merge_plist(&self.0.param_root, &diff.0.param_root),
            },
        )
    }
}

} // verus!
