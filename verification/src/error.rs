//! The failures of the resource codecs.

use vstd::prelude::*;

verus! {

/// Why a generic tree could not be read as a typed resource.
#[derive(Debug, Clone, Copy, PartialEq, Eq)]
pub enum UKError {
    /// A parameter-archive key that the resource needs is absent; the text
    /// says which.
    MissingAampKey(&'static str),
    /// A parameter-archive key that the resource needs at a numbered place
    /// is absent: the text says what is missed, the number at which place.
    MissingAampPlace(&'static str, usize),
    /// A hierarchical-data key that the resource needs is absent; the text
    /// says which.
    MissingBymlKey(&'static str),
    /// A parameter is of another kind than the one asked for, which the
    /// text names.
    WrongAampType(&'static str),
    /// The parameter at a numbered place is of another kind than the one
    /// asked for: the text names the kind, the number the place.
    WrongAampPlace(&'static str, usize),
    /// A hierarchical-data node is of another kind than the one asked for,
    /// which the text names.
    WrongBymlType(&'static str),
}

impl UKError {
    /// The text that the failure carries: the key that was missed, or the
    /// kind that was asked for.
    pub fn detail(&self) -> (r: &'static str)
        ensures
            r == match *self {
                UKError::MissingAampKey(s) => s,
                UKError::MissingAampPlace(s, _) => s,
                UKError::MissingBymlKey(s) => s,
                UKError::WrongAampType(s) => s,
                UKError::WrongAampPlace(s, _) => s,
                UKError::WrongBymlType(s) => s,
            },
    {
        match *self {
            UKError::MissingAampKey(s) => s,
            UKError::MissingAampPlace(s, _) => s,
            UKError::MissingBymlKey(s) => s,
            UKError::WrongAampType(s) => s,
            UKError::WrongAampPlace(s, _) => s,
            UKError::WrongBymlType(s) => s,
        }
    }

    /// The numbered place that the failure speaks of, where it names one.
    pub fn place(&self) -> (r: Option<usize>)
        ensures
            r == match *self {
                UKError::MissingAampPlace(_, i) => Some(i),
                UKError::WrongAampPlace(_, i) => Some(i),
                _ => None,
            },
    {
        match *self {
            UKError::MissingAampPlace(_, i) => Some(i),
            UKError::WrongAampPlace(_, i) => Some(i),
            _ => None,
        }
    }

    /// Whether the failure is a missing key, as against a node or a
    /// parameter of the wrong kind.
    pub fn is_missing_key(&self) -> (r: bool)
        ensures
            r == (*self is MissingAampKey || *self is MissingAampPlace
                || *self is MissingBymlKey),
    {
        match *self {
            UKError::MissingAampKey(_) => true,
            UKError::MissingAampPlace(_, _) => true,
            UKError::MissingBymlKey(_) => true,
            _ => false,
        }
    }
}


/// The outcome of a read, with the value that was read in place of the
/// piece of data.
pub open spec fn read_as<T: DeepView>(r: Result<T, UKError>) -> Result<T::V, UKError> {
    match r {
        Ok(t) => Ok(t.deep_view()),
        Err(e) => Err(e),
    }
}

} // verus!
