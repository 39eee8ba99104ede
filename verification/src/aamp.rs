//! The parameter-archive tree: a root list of named objects and named
//! nested lists, an object being a map from names to typed parameters.
//!
//! A name is known by its 32-bit checksum alone. A parameter made of
//! floating-point numbers is held by their IEEE 754 bits.

use crate::assoc::{distinct_keys, lemma_lookup_at};
use crate::datum::Datum;
use crate::error::UKError;
use crate::util::ascending::{sorted_collected, sorted_insert};
use crate::util::collections::{
    added, collected, find, live_pairs, removed, seek_live, DeleteMap, Hashed, Lookup,
    SortedDeleteMap,
};
use crate::util::delta::{is_changed, is_kept, live_value};
use crate::util::nested::{
    laid, lemma_deep_diff_keys, lemma_deep_merge_keys, lemma_list_parts, list_diff, list_merge,
    object_diff, object_merge, refined, whole_diff, whole_merge,
};
use vstd::prelude::*;

verus! {

/// One step of the checksum: the register moves one bit to the right, and
/// takes the polynomial where the bit that left was set.
pub open spec fn crc_step(c: u32) -> u32 {
    if c & 1 == 1 {
        (c >> 1) ^ 0xEDB8_8320
    } else {
        c >> 1
    }
}

/// The register after `n` steps.
pub open spec fn crc_steps(c: u32, n: nat) -> u32
    decreases n,
{
    if n == 0 {
        c
    } else {
        crc_step(crc_steps(c, (n - 1) as nat))
    }
}

/// The register after the bytes `bytes`: it starts with every bit set, and
/// takes each byte into its low bits and then makes eight steps.
pub open spec fn crc_register(bytes: Seq<u8>) -> u32
    decreases bytes.len(),
{
    if bytes.len() == 0 {
        0xFFFF_FFFF
    } else {
        crc_steps(crc_register(bytes.drop_last()) ^ (bytes.last() as u32), 8)
    }
}

/// The checksum by which the parameter-archive format knows the name
/// `name`: the CRC-32 of its bytes in UTF-8, which is the register after
/// them with every bit turned.
pub open spec fn name_hash(name: Seq<char>) -> u32 {
    !crc_register(vstd::utf8::encode_utf8(name))
}

/// The checksum that the format keeps in place of the name `name`.
pub fn hash_name(name: &str) -> (r: u32)
    ensures
        r == name_hash(name@),
{
    let bytes = name.as_bytes();
    let mut crc: u32 = 0xFFFF_FFFF;
    let mut i: usize = 0;
    while i < bytes.len()
        invariant
            i <= bytes.len(),
            bytes@ == vstd::utf8::encode_utf8(name@),
            crc == crc_register(bytes@.take(i as int)),
        decreases bytes.len() - i,
    {
        crc = crc ^ (bytes[i] as u32);
        let ghost start = crc;
        let mut j: u8 = 0;
        while j < 8
            invariant
                j <= 8,
                crc == crc_steps(start, j as nat),
            decreases 8 - j,
        {
            crc = if crc & 1 == 1 {
                (crc >> 1) ^ 0xEDB8_8320
            } else {
                crc >> 1
            };
            j = j + 1;
        }
        proof {
            assert(bytes@.take(i + 1).drop_last() =~= bytes@.take(i as int));
            assert(bytes@.take(i + 1).last() == bytes@[i as int]);
        }
        i = i + 1;
    }
    proof {
        assert(bytes@.take(i as int) =~= bytes@);
    }
    !crc
}

/// The kinds of parameter that are made of 32-bit words, by the number
/// that the format gives each kind.
pub const KIND_VEC2: u8 = 3;

pub const KIND_VEC3: u8 = 4;

pub const KIND_VEC4: u8 = 5;

pub const KIND_COLOR: u8 = 6;

pub const KIND_CURVE1: u8 = 9;

pub const KIND_CURVE2: u8 = 10;

pub const KIND_CURVE3: u8 = 11;

pub const KIND_CURVE4: u8 = 12;

pub const KIND_BUFFER_INT: u8 = 13;

pub const KIND_BUFFER_F32: u8 = 14;

pub const KIND_QUAT: u8 = 16;

pub const KIND_BUFFER_U32: u8 = 18;

/// A typed parameter.
#[derive(Debug)]
pub enum Parameter {
    Bool(bool),
    /// A 32-bit float, by its bits.
    F32(u32),
    Int(i32),
    U32(u32),
    String32(String),
    String64(String),
    String256(String),
    StringRef(String),
    /// A vector, colour, quaternion, curve or buffer of numbers: the
    /// format's number for the kind, and the 32-bit words it is made of.
    Words(u8, Vec<u32>),
    /// A buffer of bytes.
    Bytes(Vec<u8>),
}

/// The mathematical value of a parameter.
pub enum ParameterView {
    Bool(bool),
    F32(u32),
    Int(i32),
    U32(u32),
    String32(Seq<char>),
    String64(Seq<char>),
    String256(Seq<char>),
    StringRef(Seq<char>),
    Words(u8, Seq<u32>),
    Bytes(Seq<u8>),
}

impl DeepView for Parameter {
    type V = ParameterView;

    open spec fn deep_view(&self) -> ParameterView {
        match self {
            Parameter::Bool(v) => ParameterView::Bool(*v),
            Parameter::F32(v) => ParameterView::F32(*v),
            Parameter::Int(v) => ParameterView::Int(*v),
            Parameter::U32(v) => ParameterView::U32(*v),
            Parameter::String32(s) => ParameterView::String32(s@),
            Parameter::String64(s) => ParameterView::String64(s@),
            Parameter::String256(s) => ParameterView::String256(s@),
            Parameter::StringRef(s) => ParameterView::StringRef(s@),
            Parameter::Words(k, w) => ParameterView::Words(*k, w@),
            Parameter::Bytes(b) => ParameterView::Bytes(b@),
        }
    }
}

impl Datum for Parameter {
    fn same(&self, other: &Self) -> (r: bool) {
        match (self, other) {
            (Parameter::Bool(a), Parameter::Bool(b)) => *a == *b,
            (Parameter::F32(a), Parameter::F32(b)) => *a == *b,
            (Parameter::Int(a), Parameter::Int(b)) => *a == *b,
            (Parameter::U32(a), Parameter::U32(b)) => *a == *b,
            (Parameter::String32(a), Parameter::String32(b)) => *a == *b,
            (Parameter::String64(a), Parameter::String64(b)) => *a == *b,
            (Parameter::String256(a), Parameter::String256(b)) => *a == *b,
            (Parameter::StringRef(a), Parameter::StringRef(b)) => *a == *b,
            (Parameter::Words(k, a), Parameter::Words(l, b)) => {
                let r = a.same(b);
                proof {
                    assert(a.deep_view() =~= a@);
                    assert(b.deep_view() =~= b@);
                }
                *k == *l && r
            },
            (Parameter::Bytes(a), Parameter::Bytes(b)) => {
                let r = a.same(b);
                proof {
                    assert(a.deep_view() =~= a@);
                    assert(b.deep_view() =~= b@);
                }
                r
            },
            _ => false,
        }
    }

    fn dup(&self) -> (r: Self) {
        match self {
            Parameter::Bool(v) => Parameter::Bool(*v),
            Parameter::F32(v) => Parameter::F32(*v),
            Parameter::Int(v) => Parameter::Int(*v),
            Parameter::U32(v) => Parameter::U32(*v),
            Parameter::String32(s) => Parameter::String32(s.clone()),
            Parameter::String64(s) => Parameter::String64(s.clone()),
            Parameter::String256(s) => Parameter::String256(s.clone()),
            Parameter::StringRef(s) => Parameter::StringRef(s.clone()),
            Parameter::Words(k, w) => {
                let c = w.dup();
                proof {
                    assert(c.deep_view() =~= c@);
                    assert(w.deep_view() =~= w@);
                }
                Parameter::Words(*k, c)
            },
            Parameter::Bytes(b) => {
                let c = b.dup();
                proof {
                    assert(c.deep_view() =~= c@);
                    assert(b.deep_view() =~= b@);
                }
                Parameter::Bytes(c)
            },
        }
    }
}

/// A parameter's value read as a signed 32-bit integer.
pub open spec fn view_int(v: ParameterView) -> Result<i32, UKError> {
    match v {
        ParameterView::Int(i) => Ok(i),
        _ => Err(UKError::WrongAampType("Int")),
    }
}

/// A parameter's value read as a string of at most 64 bytes.
pub open spec fn view_string64(v: ParameterView) -> Result<Seq<char>, UKError> {
    match v {
        ParameterView::String64(s) => Ok(s),
        _ => Err(UKError::WrongAampType("String64")),
    }
}

/// A parameter's value read as a string of any of the four kinds.
pub open spec fn view_text(v: ParameterView) -> Result<Seq<char>, UKError> {
    match v {
        ParameterView::String32(s) => Ok(s),
        ParameterView::String64(s) => Ok(s),
        ParameterView::String256(s) => Ok(s),
        ParameterView::StringRef(s) => Ok(s),
        _ => Err(UKError::WrongAampType("a string type")),
    }
}

impl Parameter {
    /// The signed 32-bit integer that the parameter holds.
    pub fn as_int(&self) -> (r: Result<i32, UKError>)
        ensures
            r == view_int(self.deep_view()),
    {
        match self {
            Parameter::Int(v) => Ok(*v),
            _ => Err(UKError::WrongAampType("Int")),
        }
    }

    /// The string of at most 64 bytes that the parameter holds.
    pub fn as_string64(&self) -> (r: Result<&String, UKError>)
        ensures
            match r {
                Ok(s) => view_string64(self.deep_view()) == Ok::<Seq<char>, UKError>(s@),
                Err(e) => view_string64(self.deep_view()) == Err::<Seq<char>, UKError>(e),
            },
    {
        match self {
            Parameter::String64(s) => Ok(s),
            _ => Err(UKError::WrongAampType("String64")),
        }
    }

    /// The string that the parameter holds, whichever of the four kinds of
    /// string it is.
    pub fn as_string(&self) -> (r: Result<&String, UKError>)
        ensures
            match r {
                Ok(s) => view_text(self.deep_view()) == Ok::<Seq<char>, UKError>(s@),
                Err(e) => view_text(self.deep_view()) == Err::<Seq<char>, UKError>(e),
            },
    {
        match self {
            Parameter::String32(s) => Ok(s),
            Parameter::String64(s) => Ok(s),
            Parameter::String256(s) => Ok(s),
            Parameter::StringRef(s) => Ok(s),
            _ => Err(UKError::WrongAampType("a string type")),
        }
    }
}

/// A parameter object: parameters under the checksums of their names, in
/// the order of the checksums, whatever the order in which they came. In a
/// diff, a parameter that was removed is a tombstone.
#[derive(Debug)]
pub struct ParameterObject(pub SortedDeleteMap<u32, Parameter>);

impl DeepView for ParameterObject {
    type V = Seq<(u32, Option<ParameterView>)>;

    open spec fn deep_view(&self) -> Self::V {
        self.0@
    }
}

impl Datum for ParameterObject {
    fn same(&self, other: &Self) -> (r: bool) {
        self.0.same(&other.0)
    }

    fn dup(&self) -> (r: Self) {
        ParameterObject(self.0.dup())
    }
}

impl ParameterObject {
    /// An object without parameters.
    pub fn new() -> (r: Self)
        ensures
            r.deep_view() == Seq::<(u32, Option<ParameterView>)>::empty(),
    {
        ParameterObject(SortedDeleteMap::new())
    }

    /// The object that putting `pairs` one by one into an empty object
    /// gives: each checksum once, with the value that came last.
    pub fn from_pairs(pairs: Vec<(u32, Parameter)>) -> (r: Self)
        ensures
            r.deep_view() == sorted_collected::<u32, ParameterView>(pairs.deep_view()),
    {
        ParameterObject(SortedDeleteMap::from_pairs(pairs))
    }

    /// The number of entries, tombstones among them.
    pub fn len(&self) -> (r: usize)
        ensures
            r == self.deep_view().len(),
    {
        self.0.len()
    }

    /// The live parameters, in the order of their checksums, each
    /// checksum with its value.
    pub fn pairs(&self) -> (r: Vec<(u32, Parameter)>)
        ensures
            r.deep_view() == live_pairs(self.deep_view()),
    {
        self.0.pairs()
    }

    /// The live parameter under the checksum `key`.
    pub fn get(&self, key: u32) -> (r: Option<&Parameter>)
        ensures
            r.deep_view() == live_value(self.deep_view(), key),
    {
        self.0.get(&key)
    }

    /// The live parameter with the name `name`.
    pub fn param(&self, name: &str) -> (r: Option<&Parameter>)
        ensures
            r.deep_view() == live_value(self.deep_view(), name_hash(name@)),
    {
        let key = hash_name(name);
        self.0.get(&key)
    }

    /// The object with `value` under the name `name`, in the place of what
    /// stood under the name before.
    pub fn with_parameter(self, name: &str, value: Parameter) -> (r: Self)
        ensures
            r.deep_view() == sorted_insert::<u32, Option<ParameterView>>(
                self.deep_view(),
                name_hash(name@),
                Some(value.deep_view()),
            ),
    {
        let mut map = self.0;
        map.insert(hash_name(name), value);
        ParameterObject(map)
    }
}

/// A parameter list: named objects and named nested lists, each in the
/// order in which they are written out. No name occurs twice among the
/// objects or among the lists. In a diff, an object or a list that was
/// removed is a tombstone.
#[derive(Debug)]
pub struct ParameterList {
    objects: Vec<(u32, Option<ParameterObject>)>,
    lists: Vec<(u32, Option<ParameterList>)>,
}

/// The mathematical value of a parameter list.
pub struct ListView {
    pub objects: Seq<(u32, Option<Seq<(u32, Option<ParameterView>)>>)>,
    pub lists: Seq<(u32, Option<ListView>)>,
}

impl DeepView for ParameterList {
    type V = ListView;

    open spec fn deep_view(&self) -> ListView {
        self.tree()
    }
}

/// Whether the lists of `a` and `b` have the same names and values, one by
/// one.
fn same_lists(a: &Vec<(u32, Option<ParameterList>)>, b: &Vec<(u32, Option<ParameterList>)>) -> (r:
    bool)
    ensures
        r == (a.deep_view() == b.deep_view()),
    decreases a,
{
    if a.len() != b.len() {
        assert(a.deep_view().len() != b.deep_view().len());
        return false;
    }
    let mut i: usize = 0;
    while i < a.len()
        invariant
            i <= a.len(),
            a.len() == b.len(),
            forall|j: int| 0 <= j < i ==> a.deep_view()[j] == b.deep_view()[j],
        decreases a.len() - i,
    {
        let alike = a[i].0 == b[i].0 && match (&a[i].1, &b[i].1) {
            (Some(x), Some(y)) => x.equals(y),
            (None, None) => true,
            _ => false,
        };
        if !alike {
            assert(a.deep_view()[i as int] != b.deep_view()[i as int]);
            return false;
        }
        i = i + 1;
    }
    assert(a.deep_view() =~= b.deep_view());
    true
}

/// A copy of the lists.
fn copy_lists(a: &Vec<(u32, Option<ParameterList>)>) -> (r: Vec<(u32, Option<ParameterList>)>)
    ensures
        r.deep_view() == a.deep_view(),
    decreases a,
{
    let mut out: Vec<(u32, Option<ParameterList>)> = Vec::new();
    let mut i: usize = 0;
    while i < a.len()
        invariant
            i <= a.len(),
            out.len() == i,
            forall|j: int| 0 <= j < i ==> out.deep_view()[j] == a.deep_view()[j],
        decreases a.len() - i,
    {
        let slot = match &a[i].1 {
            Some(x) => Some(x.copy()),
            None => None,
        };
        out.push((a[i].0, slot));
        i = i + 1;
    }
    assert(out.deep_view() =~= a.deep_view());
    out
}

/// The objects of `other` that are new against the table of `base`, whole,
/// and those that are changed, each as the diff of the two objects.
fn changed_objects<L: Lookup<u32, ParameterObject>>(
    base: &L,
    other: &Vec<(u32, Option<ParameterObject>)>,
) -> (out: Vec<(u32, Option<ParameterObject>)>)
    requires
        base.ready(),
    ensures
        out.deep_view() == other.deep_view().filter(is_changed(base.table())).map_values(
            refined(base.table(), object_diff()),
        ),
{
    let mut out: Vec<(u32, Option<ParameterObject>)> = Vec::new();
    let mut i: usize = 0;
    let ghost b = base.table();
    let ghost o = other.deep_view();
    let ghost f = refined(b, object_diff());
    proof {
        reveal(Seq::filter);
        assert(out.deep_view() =~= o.take(0).filter(is_changed(b)).map_values(f));
    }
    while i < other.len()
        invariant
            i <= other.len(),
            b == base.table(),
            o == other.deep_view(),
            f == refined(b, object_diff()),
            base.ready(),
            out.deep_view() == o.take(i as int).filter(is_changed(b)).map_values(f),
        decreases other.len() - i,
    {
        proof {
            assert(o.take(i + 1) =~= o.take(i as int).push(o[i as int]));
            o.take(i as int).lemma_filter_push(o[i as int], is_changed(b));
        }
        let ghost before = out.deep_view();
        let ghost kept = o.take(i as int).filter(is_changed(b));
        match &other[i].1 {
            None => {},
            Some(new) => {
                let slot = match seek_live(base, &other[i].0) {
                    None => Some(new.dup()),
                    Some(old) => if old.same(new) {
                        None
                    } else {
                        Some(ParameterObject(old.0.diff(&new.0)))
                    },
                };
                match slot {
                    None => {},
                    Some(x) => {
                        out.push((other[i].0, Some(x)));
                        proof {
                            assert(is_changed(b)(o[i as int]));
                            assert(kept.push(o[i as int]).map_values(f) =~= kept.map_values(
                                f,
                            ).push(f(o[i as int])));
                            assert(out.deep_view() =~= before.push(f(o[i as int])));
                        }
                    },
                }
            },
        }
        i = i + 1;
    }
    proof {
        assert(o.take(i as int) =~= o);
    }
    out
}

/// The live objects of `base` that the table of `diff` does not delete,
/// each with the object of `diff` merged onto it where `diff` has the name.
fn kept_objects<L: Lookup<u32, ParameterObject>>(
    base: &Vec<(u32, Option<ParameterObject>)>,
    diff: &L,
) -> (out: Vec<(u32, Option<ParameterObject>)>)
    requires
        diff.ready(),
    ensures
        out.deep_view() == base.deep_view().filter(is_kept(diff.table())).map_values(
            laid(diff.table(), object_merge()),
        ),
{
    let mut out: Vec<(u32, Option<ParameterObject>)> = Vec::new();
    let mut i: usize = 0;
    let ghost b = base.deep_view();
    let ghost d = diff.table();
    let ghost f = laid(d, object_merge());
    proof {
        reveal(Seq::filter);
        assert(out.deep_view() =~= b.take(0).filter(is_kept(d)).map_values(f));
    }
    while i < base.len()
        invariant
            i <= base.len(),
            b == base.deep_view(),
            d == diff.table(),
            f == laid(d, object_merge()),
            diff.ready(),
            out.deep_view() == b.take(i as int).filter(is_kept(d)).map_values(f),
        decreases base.len() - i,
    {
        proof {
            assert(b.take(i + 1) =~= b.take(i as int).push(b[i as int]));
            b.take(i as int).lemma_filter_push(b[i as int], is_kept(d));
        }
        let ghost before = out.deep_view();
        let ghost kept = b.take(i as int).filter(is_kept(d));
        match &base[i].1 {
            None => {},
            Some(old) => {
                let slot = match diff.seek(&base[i].0) {
                    None => Some(old.dup()),
                    Some(None) => None,
                    Some(Some(over)) => Some(ParameterObject(old.0.merge(&over.0))),
                };
                match slot {
                    None => {},
                    Some(x) => {
                        out.push((base[i].0, Some(x)));
                        proof {
                            assert(is_kept(d)(b[i as int]));
                            assert(kept.push(b[i as int]).map_values(f) =~= kept.map_values(
                                f,
                            ).push(f(b[i as int])));
                            assert(out.deep_view() =~= before.push(f(b[i as int])));
                        }
                    },
                }
            },
        }
        i = i + 1;
    }
    proof {
        assert(b.take(i as int) =~= b);
    }
    out
}

/// The nested lists of `other` that are new against `base`, whole, and
/// those that are changed, each as the diff of the two lists.
fn changed_lists(
    base: &Vec<(u32, Option<ParameterList>)>,
    other: &Vec<(u32, Option<ParameterList>)>,
) -> (out: Vec<(u32, Option<ParameterList>)>)
    requires
        distinct_keys(base.deep_view()),
    ensures
        out.deep_view() == other.deep_view().filter(is_changed(base.deep_view())).map_values(
            refined(base.deep_view(), whole_diff()),
        ),
    decreases other,
{
    let index = Hashed::build(base);
    let mut out: Vec<(u32, Option<ParameterList>)> = Vec::new();
    let mut i: usize = 0;
    let ghost b = base.deep_view();
    let ghost o = other.deep_view();
    let ghost f = refined(b, whole_diff());
    proof {
        reveal(Seq::filter);
        assert(out.deep_view() =~= o.take(0).filter(is_changed(b)).map_values(f));
    }
    while i < other.len()
        invariant
            i <= other.len(),
            b == base.deep_view(),
            b == index.table(),
            o == other.deep_view(),
            f == refined(b, whole_diff()),
            index.ready(),
            out.deep_view() == o.take(i as int).filter(is_changed(b)).map_values(f),
        decreases other.len() - i,
    {
        proof {
            assert(o.take(i + 1) =~= o.take(i as int).push(o[i as int]));
            o.take(i as int).lemma_filter_push(o[i as int], is_changed(b));
        }
        let ghost before = out.deep_view();
        let ghost kept = o.take(i as int).filter(is_changed(b));
        match &other[i].1 {
            None => {},
            Some(new) => {
                let slot = match seek_live(&index, &other[i].0) {
                    None => Some(new.copy()),
                    Some(old) => if old.equals(new) {
                        None
                    } else {
                        Some(old.diff_to(new))
                    },
                };
                match slot {
                    None => {},
                    Some(x) => {
                        out.push((other[i].0, Some(x)));
                        proof {
                            assert(is_changed(b)(o[i as int]));
                            assert(kept.push(o[i as int]).map_values(f) =~= kept.map_values(
                                f,
                            ).push(f(o[i as int])));
                            assert(out.deep_view() =~= before.push(f(o[i as int])));
                        }
                    },
                }
            },
        }
        i = i + 1;
    }
    proof {
        assert(o.take(i as int) =~= o);
    }
    out
}

/// The live nested lists of `base` that `diff` does not delete, each with
/// the list of `diff` merged onto it where `diff` has the name.
fn kept_lists(
    base: &Vec<(u32, Option<ParameterList>)>,
    diff: &Vec<(u32, Option<ParameterList>)>,
) -> (out: Vec<(u32, Option<ParameterList>)>)
    requires
        distinct_keys(diff.deep_view()),
    ensures
        out.deep_view() == base.deep_view().filter(is_kept(diff.deep_view())).map_values(
            laid(diff.deep_view(), whole_merge()),
        ),
    decreases base,
{
    let index = Hashed::build(diff);
    let mut out: Vec<(u32, Option<ParameterList>)> = Vec::new();
    let mut i: usize = 0;
    let ghost b = base.deep_view();
    let ghost d = diff.deep_view();
    let ghost f = laid(d, whole_merge());
    proof {
        reveal(Seq::filter);
        assert(out.deep_view() =~= b.take(0).filter(is_kept(d)).map_values(f));
    }
    while i < base.len()
        invariant
            i <= base.len(),
            b == base.deep_view(),
            d == diff.deep_view(),
            d == index.table(),
            f == laid(d, whole_merge()),
            index.ready(),
            out.deep_view() == b.take(i as int).filter(is_kept(d)).map_values(f),
        decreases base.len() - i,
    {
        proof {
            assert(b.take(i + 1) =~= b.take(i as int).push(b[i as int]));
            b.take(i as int).lemma_filter_push(b[i as int], is_kept(d));
        }
        let ghost before = out.deep_view();
        let ghost kept = b.take(i as int).filter(is_kept(d));
        match &base[i].1 {
            None => {},
            Some(old) => {
                let slot = match index.seek(&base[i].0) {
                    None => Some(old.copy()),
                    Some(None) => None,
                    Some(Some(over)) => Some(old.merged_with(over)),
                };
                match slot {
                    None => {},
                    Some(x) => {
                        out.push((base[i].0, Some(x)));
                        proof {
                            assert(is_kept(d)(b[i as int]));
                            assert(kept.push(b[i as int]).map_values(f) =~= kept.map_values(
                                f,
                            ).push(f(b[i as int])));
                            assert(out.deep_view() =~= before.push(f(b[i as int])));
                        }
                    },
                }
            },
        }
        i = i + 1;
    }
    proof {
        assert(b.take(i as int) =~= b);
    }
    out
}

impl ParameterList {
    /// No name occurs twice among the objects or among the lists.
    #[verifier::type_invariant]
    spec fn wf(self) -> bool {
        distinct_keys(self.objects.deep_view()) && distinct_keys(self.lists.deep_view())
    }

    /// The value of the list and of everything below it.
    pub closed spec fn tree(&self) -> ListView
        decreases self,
    {
        ListView {
            objects: self.objects.deep_view(),
            lists: Seq::new(
                self.lists.len() as nat,
                |i: int|
                    if 0 <= i < self.lists.len() {
                        (
                            self.lists[i].0,
                            match self.lists[i].1 {
                                Some(l) => Some(l.tree()),
                                None => None,
                            },
                        )
                    } else {
                        (0u32, None)
                    },
            ),
        }
    }

    /// The value of a list is made of the values of its two maps.
    proof fn lemma_tree(&self)
        ensures
            self.tree() == (ListView {
                objects: self.objects.deep_view(),
                lists: self.lists.deep_view(),
            }),
    {
        assert(self.tree().lists =~= self.lists.deep_view());
    }

    /// A list without objects or lists.
    pub fn new() -> (r: Self)
        ensures
            r.tree() == (ListView { objects: Seq::empty(), lists: Seq::empty() }),
    {
        let r = ParameterList { objects: Vec::new(), lists: Vec::new() };
        proof {
            r.lemma_tree();
            assert(r.objects.deep_view() =~= Seq::empty());
            assert(r.lists.deep_view() =~= Seq::empty());
        }
        r
    }

    /// The list that putting the objects and the lists one by one into an
    /// empty list gives: each name once, where it first came, with what
    /// came last.
    pub fn from_entries(
        objects: Vec<(u32, ParameterObject)>,
        lists: Vec<(u32, ParameterList)>,
    ) -> (r: Self)
        ensures
            r.tree() == (ListView {
                objects: collected(objects.deep_view()),
                lists: collected(lists.deep_view()),
            }),
    {
        let r = ParameterList {
            objects: DeleteMap::from_pairs(objects).into_entries(),
            lists: DeleteMap::from_pairs(lists).into_entries(),
        };
        proof {
            r.lemma_tree();
        }
        r
    }

    /// The objects, in order, a tombstone as `None`.
    pub fn objects(&self) -> (r: &Vec<(u32, Option<ParameterObject>)>)
        ensures
            r.deep_view() == self.tree().objects,
            distinct_keys(r.deep_view()),
    {
        proof {
            use_type_invariant(self);
            self.lemma_tree();
        }
        &self.objects
    }

    /// The nested lists, in order, a tombstone as `None`.
    pub fn lists(&self) -> (r: &Vec<(u32, Option<ParameterList>)>)
        ensures
            r.deep_view() == self.tree().lists,
            distinct_keys(r.deep_view()),
    {
        proof {
            use_type_invariant(self);
            self.lemma_tree();
        }
        &self.lists
    }

    /// Whether two lists have the same value, all the way down.
    pub fn equals(&self, other: &ParameterList) -> (r: bool)
        ensures
            r == (self.tree() == other.tree()),
        decreases self,
    {
        proof {
            self.lemma_tree();
            other.lemma_tree();
        }
        self.objects.same(&other.objects) && same_lists(&self.lists, &other.lists)
    }

    /// A copy of the list and of everything below it.
    pub fn copy(&self) -> (r: ParameterList)
        ensures
            r.tree() == self.tree(),
        decreases self,
    {
        proof {
            use_type_invariant(self);
        }
        let r = ParameterList { objects: self.objects.dup(), lists: copy_lists(&self.lists) };
        proof {
            self.lemma_tree();
            r.lemma_tree();
        }
        r
    }

    /// The live object under the checksum `key`.
    pub fn object_by_hash(&self, key: u32) -> (r: Option<&ParameterObject>)
        ensures
            r.deep_view() == live_value(self.tree().objects, key),
    {
        proof {
            use_type_invariant(self);
            self.lemma_tree();
        }
        match find(&self.objects, &key) {
            None => None,
            Some(i) => {
                proof {
                    lemma_lookup_at(self.objects.deep_view(), i as int);
                }
                match &self.objects[i].1 {
                    Some(o) => Some(o),
                    None => None,
                }
            },
        }
    }

    /// The live object with the name `name`.
    pub fn object(&self, name: &str) -> (r: Option<&ParameterObject>)
        ensures
            r.deep_view() == live_value(self.tree().objects, name_hash(name@)),
    {
        self.object_by_hash(hash_name(name))
    }

    /// The live nested list with the name `name`.
    pub fn list(&self, name: &str) -> (r: Option<&ParameterList>)
        ensures
            r.deep_view() == live_value(self.tree().lists, name_hash(name@)),
    {
        proof {
            use_type_invariant(self);
            self.lemma_tree();
        }
        let key = hash_name(name);
        match find(&self.lists, &key) {
            None => None,
            Some(i) => {
                proof {
                    lemma_lookup_at(self.lists.deep_view(), i as int);
                }
                match &self.lists[i].1 {
                    Some(l) => Some(l),
                    None => None,
                }
            },
        }
    }

    /// The diff from `self` to `other`.
    pub fn diff_to(&self, other: &ParameterList) -> (r: ParameterList)
        ensures
            r.tree() == list_diff(self.tree(), other.tree()),
        decreases other,
    {
        proof {
            use_type_invariant(self);
            use_type_invariant(other);
            self.lemma_tree();
            other.lemma_tree();
            lemma_list_parts(self.tree(), other.tree());
            lemma_deep_diff_keys(self.tree().objects, other.tree().objects, object_diff());
            lemma_deep_diff_keys(self.tree().lists, other.tree().lists, whole_diff());
        }
        let mut objects = changed_objects(&Hashed::build(&self.objects), &other.objects);
        let mut gone = removed(&self.objects, &Hashed::build(&other.objects));
        let ghost a = objects.deep_view();
        let ghost b = gone.deep_view();
        objects.append(&mut gone);
        let mut lists = changed_lists(&self.lists, &other.lists);
        let mut gone_lists = removed(&self.lists, &Hashed::build(&other.lists));
        let ghost c = lists.deep_view();
        let ghost d = gone_lists.deep_view();
        lists.append(&mut gone_lists);
        proof {
            assert(objects.deep_view() =~= a + b);
            assert(lists.deep_view() =~= c + d);
        }
        let r = ParameterList { objects, lists };
        proof {
            r.lemma_tree();
        }
        r
    }

    /// `diff` applied to `self`.
    pub fn merged_with(&self, diff: &ParameterList) -> (r: ParameterList)
        ensures
            r.tree() == list_merge(self.tree(), diff.tree()),
        decreases self,
    {
        proof {
            use_type_invariant(self);
            use_type_invariant(diff);
            self.lemma_tree();
            diff.lemma_tree();
            lemma_list_parts(self.tree(), diff.tree());
            lemma_deep_merge_keys(self.tree().objects, diff.tree().objects, object_merge());
            lemma_deep_merge_keys(self.tree().lists, diff.tree().lists, whole_merge());
        }
        let mut objects = kept_objects(&self.objects, &Hashed::build(&diff.objects));
        let mut fresh = added(&Hashed::build(&self.objects), &diff.objects);
        let ghost a = objects.deep_view();
        let ghost b = fresh.deep_view();
        objects.append(&mut fresh);
        let mut lists = kept_lists(&self.lists, &diff.lists);
        let mut fresh_lists = added(&Hashed::build(&self.lists), &diff.lists);
        let ghost c = lists.deep_view();
        let ghost d = fresh_lists.deep_view();
        lists.append(&mut fresh_lists);
        proof {
            assert(objects.deep_view() =~= a + b);
            assert(lists.deep_view() =~= c + d);
        }
        let r = ParameterList { objects, lists };
        proof {
            r.lemma_tree();
        }
        r
    }
}

impl Datum for ParameterList {
    fn same(&self, other: &Self) -> (r: bool) {
        self.equals(other)
    }

    fn dup(&self) -> (r: Self) {
        self.copy()
    }
}

/// A parameter archive: the root list with the version and the kind of the
/// data.
#[derive(Debug)]
pub struct ParameterIO {
    /// The version of the data. Mostly 0.
    pub version: u32,
    /// What the data is. Mostly "xml".
    pub data_type: String,
    /// The root list.
    pub param_root: ParameterList,
}

/// The mathematical value of a parameter archive.
pub struct ArchiveView {
    pub version: u32,
    pub data_type: Seq<char>,
    pub root: ListView,
}

impl DeepView for ParameterIO {
    type V = ArchiveView;

    open spec fn deep_view(&self) -> ArchiveView {
        ArchiveView {
            version: self.version,
            data_type: self.data_type@,
            root: self.param_root.tree(),
        }
    }
}

impl Datum for ParameterIO {
    fn same(&self, other: &Self) -> (r: bool) {
        self.version == other.version && self.data_type == other.data_type
            && self.param_root.equals(&other.param_root)
    }

    fn dup(&self) -> (r: Self) {
        ParameterIO {
            version: self.version,
            data_type: self.data_type.clone(),
            param_root: self.param_root.copy(),
        }
    }
}

impl ParameterIO {
    /// An archive with an empty root list, version 0 and the kind "xml".
    pub fn new() -> (r: Self)
        ensures
            r.deep_view() == (ArchiveView {
                version: 0,
                data_type: "xml"@,
                root: ListView { objects: Seq::empty(), lists: Seq::empty() },
            }),
    {
        ParameterIO { version: 0, data_type: "xml".to_owned(), param_root: ParameterList::new() }
    }

    /// An archive of version 0 and of the kind "xml" with the root list
    /// `root`.
    pub fn from_root(root: ParameterList) -> (r: Self)
        ensures
            r.deep_view() == (ArchiveView { version: 0, data_type: "xml"@, root: root.tree() }),
    {
        ParameterIO { version: 0, data_type: "xml".to_owned(), param_root: root }
    }

    /// The live object of the root list with the name `name`.
    pub fn object(&self, name: &str) -> (r: Option<&ParameterObject>)
        ensures
            r.deep_view() == live_value(self.deep_view().root.objects, name_hash(name@)),
    {
        self.param_root.object(name)
    }

    /// The live nested list of the root list with the name `name`.
    pub fn list(&self, name: &str) -> (r: Option<&ParameterList>)
        ensures
            r.deep_view() == live_value(self.deep_view().root.lists, name_hash(name@)),
    {
        self.param_root.list(name)
    }
}

} // verus!
