//! The diff/merge protocol that every typed resource follows.

use vstd::prelude::*;

verus! {

/// A resource that can be compared against a base and laid over one.
///
/// A diff has the shape of the values that it lies between, and holds
/// only what changed from the base to the other value. A merge applies a
/// diff to a base and gives a new value; neither operand is changed.
pub trait Mergeable: DeepView + Sized {
    /// Whether the two values are of one resource, so that they may be
    /// combined at all.
    spec fn alike(a: Self::V, b: Self::V) -> bool;

    /// The diff from `base` to `other`.
    spec fn diff_of(base: Self::V, other: Self::V) -> Self::V;

    /// `diff` applied to `base`.
    spec fn merge_of(base: Self::V, diff: Self::V) -> Self::V;

    /// The diff from `self` to `other`.
    fn diff(&self, other: &Self) -> (r: Self)
        requires
            Self::alike(self.deep_view(), other.deep_view()),
        ensures
            r.deep_view() == Self::diff_of(self.deep_view(), other.deep_view()),
    ;

    /// `diff` applied to `self`.
    fn merge(&self, diff: &Self) -> (r: Self)
        requires
            Self::alike(self.deep_view(), diff.deep_view()),
        ensures
            r.deep_view() == Self::merge_of(self.deep_view(), diff.deep_view()),
    ;
}

} // verus!
