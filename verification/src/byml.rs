//! The hierarchical hash/array tree: a tagged value that is null, a scalar,
//! a string, an array of values or an ordered map from strings to values.
//!
//! Floating-point leaves are held by their IEEE 754 bits, so that two trees
//! are equal exactly when they would be written out the same.

use crate::assoc::{first_value, lemma_first_value, lemma_first_value_none};
use crate::datum::Datum;
use crate::error::{read_as, UKError};
use vstd::prelude::*;

verus! {

/// A node of a hierarchical hash/array document.
#[derive(Debug)]
pub enum Byml {
    Null,
    Bool(bool),
    Int(i32),
    UInt(u32),
    Int64(i64),
    UInt64(u64),
    /// A 32-bit float, by its bits.
    Float(u32),
    /// A 64-bit float, by its bits.
    Double(u64),
    String(String),
    Binary(Vec<u8>),
    Array(Vec<Byml>),
    /// An ordered map; a key is looked up at its first occurrence.
    Hash(Vec<(String, Byml)>),
}

/// The mathematical value of a node.
pub enum BymlView {
    Null,
    Bool(bool),
    Int(i32),
    UInt(u32),
    Int64(i64),
    UInt64(u64),
    Float(u32),
    Double(u64),
    String(Seq<char>),
    Binary(Seq<u8>),
    Array(Seq<BymlView>),
    Hash(Seq<(Seq<char>, BymlView)>),
}

impl Byml {
    /// The value of the node and of everything below it.
    pub open spec fn tree(&self) -> BymlView
        decreases self,
    {
        match self {
            Byml::Null => BymlView::Null,
            Byml::Bool(v) => BymlView::Bool(*v),
            Byml::Int(v) => BymlView::Int(*v),
            Byml::UInt(v) => BymlView::UInt(*v),
            Byml::Int64(v) => BymlView::Int64(*v),
            Byml::UInt64(v) => BymlView::UInt64(*v),
            Byml::Float(v) => BymlView::Float(*v),
            Byml::Double(v) => BymlView::Double(*v),
            Byml::String(s) => BymlView::String(s@),
            Byml::Binary(b) => BymlView::Binary(b@),
            Byml::Array(items) => BymlView::Array(
                Seq::new(
                    items.len() as nat,
                    |i: int|
                        if 0 <= i < items.len() {
                            items[i].tree()
                        } else {
                            BymlView::Null
                        },
                ),
            ),
            Byml::Hash(entries) => BymlView::Hash(
                Seq::new(
                    entries.len() as nat,
                    |i: int|
                        if 0 <= i < entries.len() {
                            (entries[i].0@, entries[i].1.tree())
                        } else {
                            (Seq::empty(), BymlView::Null)
                        },
                ),
            ),
        }
    }
}

impl DeepView for Byml {
    type V = BymlView;

    open spec fn deep_view(&self) -> BymlView {
        self.tree()
    }
}

/// The value of an array node is the array of its items' values.
pub proof fn lemma_array_tree(items: Vec<Byml>)
    ensures
        Byml::Array(items).tree() == BymlView::Array(items.deep_view()),
{
    assert(Byml::Array(items).tree()->Array_0 =~= items.deep_view());
}

/// The value of a map node is the sequence of its keys and values.
pub proof fn lemma_hash_tree(entries: Vec<(String, Byml)>)
    ensures
        Byml::Hash(entries).tree() == BymlView::Hash(entries.deep_view()),
{
    assert(Byml::Hash(entries).tree()->Hash_0 =~= entries.deep_view());
}

/// The name of a node's kind.
pub open spec fn kind_name(v: BymlView) -> &'static str {
    match v {
        BymlView::Null => "Null",
        BymlView::Bool(_) => "Bool",
        BymlView::Int(_) => "Int",
        BymlView::UInt(_) => "UInt",
        BymlView::Int64(_) => "Int64",
        BymlView::UInt64(_) => "UInt64",
        BymlView::Float(_) => "Float",
        BymlView::Double(_) => "Double",
        BymlView::String(_) => "String",
        BymlView::Binary(_) => "Binary",
        BymlView::Array(_) => "Array",
        BymlView::Hash(_) => "Hash",
    }
}

/// Whether the items of `a` and `b` have the same values, one by one.
fn same_items(a: &Vec<Byml>, b: &Vec<Byml>) -> (r: bool)
    ensures
        r == (a.deep_view() == b.deep_view()),
    decreases a,
{
    if a.len() != b.len() {
        assert(a.deep_view().len() != b.deep_view().len());
        return false;
    }
    let mut i: usize = 0;
    while i < a.len()
        invariant
            i <= a.len(),
            a.len() == b.len(),
            forall|j: int| 0 <= j < i ==> a.deep_view()[j] == b.deep_view()[j],
        decreases a.len() - i,
    {
        if !a[i].equals(&b[i]) {
            assert(a.deep_view()[i as int] != b.deep_view()[i as int]);
            return false;
        }
        i = i + 1;
    }
    assert(a.deep_view() =~= b.deep_view());
    true
}

/// Whether the entries of `a` and `b` have the same keys and values, one
/// by one.
fn same_entries(a: &Vec<(String, Byml)>, b: &Vec<(String, Byml)>) -> (r: bool)
    ensures
        r == (a.deep_view() == b.deep_view()),
    decreases a,
{
    if a.len() != b.len() {
        assert(a.deep_view().len() != b.deep_view().len());
        return false;
    }
    let mut i: usize = 0;
    while i < a.len()
        invariant
            i <= a.len(),
            a.len() == b.len(),
            forall|j: int| 0 <= j < i ==> a.deep_view()[j] == b.deep_view()[j],
        decreases a.len() - i,
    {
        if !(a[i].0 == b[i].0) || !a[i].1.equals(&b[i].1) {
            assert(a.deep_view()[i as int] != b.deep_view()[i as int]);
            return false;
        }
        i = i + 1;
    }
    assert(a.deep_view() =~= b.deep_view());
    true
}

/// A copy of the items.
fn copy_items(a: &Vec<Byml>) -> (r: Vec<Byml>)
    ensures
        r.deep_view() == a.deep_view(),
    decreases a,
{
    let mut out: Vec<Byml> = Vec::new();
    let mut i: usize = 0;
    while i < a.len()
        invariant
            i <= a.len(),
            out.len() == i,
            forall|j: int| 0 <= j < i ==> out.deep_view()[j] == a.deep_view()[j],
        decreases a.len() - i,
    {
        out.push(a[i].copy());
        i = i + 1;
    }
    assert(out.deep_view() =~= a.deep_view());
    out
}

/// A copy of the entries.
fn copy_entries(a: &Vec<(String, Byml)>) -> (r: Vec<(String, Byml)>)
    ensures
        r.deep_view() == a.deep_view(),
    decreases a,
{
    let mut out: Vec<(String, Byml)> = Vec::new();
    let mut i: usize = 0;
    while i < a.len()
        invariant
            i <= a.len(),
            out.len() == i,
            forall|j: int| 0 <= j < i ==> out.deep_view()[j] == a.deep_view()[j],
        decreases a.len() - i,
    {
        out.push((a[i].0.clone(), a[i].1.copy()));
        i = i + 1;
    }
    assert(out.deep_view() =~= a.deep_view());
    out
}

impl Byml {
    /// Whether two nodes have the same value, all the way down.
    pub fn equals(&self, other: &Byml) -> (r: bool)
        ensures
            r == (self.tree() == other.tree()),
        decreases self,
    {
        match (self, other) {
            (Byml::Null, Byml::Null) => true,
            (Byml::Bool(a), Byml::Bool(b)) => *a == *b,
            (Byml::Int(a), Byml::Int(b)) => *a == *b,
            (Byml::UInt(a), Byml::UInt(b)) => *a == *b,
            (Byml::Int64(a), Byml::Int64(b)) => *a == *b,
            (Byml::UInt64(a), Byml::UInt64(b)) => *a == *b,
            (Byml::Float(a), Byml::Float(b)) => *a == *b,
            (Byml::Double(a), Byml::Double(b)) => *a == *b,
            (Byml::String(a), Byml::String(b)) => *a == *b,
            (Byml::Binary(a), Byml::Binary(b)) => {
                let r = a.same(b);
                proof {
                    assert(a.deep_view() =~= a@);
                    assert(b.deep_view() =~= b@);
                }
                r
            },
            (Byml::Array(a), Byml::Array(b)) => {
                proof {
                    lemma_array_tree(*a);
                    lemma_array_tree(*b);
                }
                same_items(a, b)
            },
            (Byml::Hash(a), Byml::Hash(b)) => {
                proof {
                    lemma_hash_tree(*a);
                    lemma_hash_tree(*b);
                }
                same_entries(a, b)
            },
            _ => false,
        }
    }

    /// A copy of the node and of everything below it.
    pub fn copy(&self) -> (r: Byml)
        ensures
            r.tree() == self.tree(),
        decreases self,
    {
        match self {
            Byml::Null => Byml::Null,
            Byml::Bool(v) => Byml::Bool(*v),
            Byml::Int(v) => Byml::Int(*v),
            Byml::UInt(v) => Byml::UInt(*v),
            Byml::Int64(v) => Byml::Int64(*v),
            Byml::UInt64(v) => Byml::UInt64(*v),
            Byml::Float(v) => Byml::Float(*v),
            Byml::Double(v) => Byml::Double(*v),
            Byml::String(s) => Byml::String(s.clone()),
            Byml::Binary(b) => {
                let c = b.dup();
                proof {
                    assert(c.deep_view() =~= c@);
                    assert(b.deep_view() =~= b@);
                }
                Byml::Binary(c)
            },
            Byml::Array(items) => {
                let c = copy_items(items);
                proof {
                    lemma_array_tree(*items);
                    lemma_array_tree(c);
                }
                Byml::Array(c)
            },
            Byml::Hash(entries) => {
                let c = copy_entries(entries);
                proof {
                    lemma_hash_tree(*entries);
                    lemma_hash_tree(c);
                }
                Byml::Hash(c)
            },
        }
    }
}

impl Datum for Byml {
    fn same(&self, other: &Self) -> (r: bool) {
        self.equals(other)
    }

    fn dup(&self) -> (r: Self) {
        self.copy()
    }
}


/// A node's value read as a bool.
pub open spec fn view_bool(v: BymlView) -> Result<bool, UKError> {
    match v {
        BymlView::Bool(b) => Ok(b),
        _ => Err(UKError::WrongBymlType("Bool")),
    }
}

/// A node's value read as a signed 32-bit integer.
pub open spec fn view_int(v: BymlView) -> Result<i32, UKError> {
    match v {
        BymlView::Int(i) => Ok(i),
        _ => Err(UKError::WrongBymlType("Int")),
    }
}

/// A node's value read as a string.
pub open spec fn view_string(v: BymlView) -> Result<Seq<char>, UKError> {
    match v {
        BymlView::String(s) => Ok(s),
        _ => Err(UKError::WrongBymlType("String")),
    }
}

/// A node's value read as an array.
pub open spec fn view_array(v: BymlView) -> Result<Seq<BymlView>, UKError> {
    match v {
        BymlView::Array(a) => Ok(a),
        _ => Err(UKError::WrongBymlType("Array")),
    }
}

/// A node's value read as a map.
pub open spec fn view_hash(v: BymlView) -> Result<Seq<(Seq<char>, BymlView)>, UKError> {
    match v {
        BymlView::Hash(h) => Ok(h),
        _ => Err(UKError::WrongBymlType("Hash")),
    }
}

/// What a map holds under `key`, or the failure `missing`.
pub open spec fn field(h: Seq<(Seq<char>, BymlView)>, key: Seq<char>, missing: UKError) -> Result<
    BymlView,
    UKError,
> {
    match first_value(h, key) {
        Some(v) => Ok(v),
        None => Err(missing),
    }
}

/// The value under the first occurrence of `key` in the entries of a map.
pub fn hash_get<'a>(entries: &'a Vec<(String, Byml)>, key: &str) -> (r: Option<&'a Byml>)
    ensures
        r.deep_view() == first_value(entries.deep_view(), key@),
{
    let wanted = key.to_owned();
    let mut i: usize = 0;
    while i < entries.len()
        invariant
            i <= entries.len(),
            wanted@ == key@,
            forall|j: int| 0 <= j < i ==> (#[trigger] entries.deep_view()[j]).0 != key@,
        decreases entries.len() - i,
    {
        if entries[i].0 == wanted {
            proof {
                lemma_first_value(entries.deep_view(), key@, i as int);
            }
            return Some(&entries[i].1);
        }
        i = i + 1;
    }
    proof {
        lemma_first_value_none(entries.deep_view(), key@);
    }
    None
}

impl Byml {
    /// The bool that the node holds.
    pub fn as_bool(&self) -> (r: Result<bool, UKError>)
        ensures
            r == view_bool(self.tree()),
    {
        match self {
            Byml::Bool(v) => Ok(*v),
            _ => Err(UKError::WrongBymlType("Bool")),
        }
    }

    /// The signed 32-bit integer that the node holds.
    pub fn as_int(&self) -> (r: Result<i32, UKError>)
        ensures
            r == view_int(self.tree()),
    {
        match self {
            Byml::Int(v) => Ok(*v),
            _ => Err(UKError::WrongBymlType("Int")),
        }
    }

    /// The string that the node holds.
    pub fn as_string(&self) -> (r: Result<&String, UKError>)
        ensures
            match r {
                Ok(s) => view_string(self.tree()) == Ok::<Seq<char>, UKError>(s@),
                Err(e) => view_string(self.tree()) == Err::<Seq<char>, UKError>(e),
            },
    {
        match self {
            Byml::String(s) => Ok(s),
            _ => Err(UKError::WrongBymlType("String")),
        }
    }

    /// The items of the array that the node holds.
    pub fn as_array(&self) -> (r: Result<&Vec<Byml>, UKError>)
        ensures
            match r {
                Ok(a) => view_array(self.tree()) == Ok::<Seq<BymlView>, UKError>(a.deep_view()),
                Err(e) => view_array(self.tree()) == Err::<Seq<BymlView>, UKError>(e),
            },
    {
        match self {
            Byml::Array(a) => {
                proof {
                    lemma_array_tree(*a);
                }
                Ok(a)
            },
            _ => Err(UKError::WrongBymlType("Array")),
        }
    }

    /// The entries of the map that the node holds.
    pub fn as_hash(&self) -> (r: Result<&Vec<(String, Byml)>, UKError>)
        ensures
            match r {
                Ok(h) => view_hash(self.tree()) == Ok::<Seq<(Seq<char>, BymlView)>, UKError>(
                    h.deep_view(),
                ),
                Err(e) => view_hash(self.tree()) == Err::<Seq<(Seq<char>, BymlView)>, UKError>(e),
            },
    {
        match self {
            Byml::Hash(h) => {
                proof {
                    lemma_hash_tree(*h);
                }
                Ok(h)
            },
            _ => Err(UKError::WrongBymlType("Hash")),
        }
    }

    /// Whether the node is null.
    pub fn is_null(&self) -> (r: bool)
        ensures
            r == (self.tree() is Null),
    {
        match self {
            Byml::Null => true,
            _ => false,
        }
    }

    /// The name of the node's kind.
    pub fn kind(&self) -> (r: &'static str)
        ensures
            r == kind_name(self.tree()),
    {
        match self {
            Byml::Null => "Null",
            Byml::Bool(_) => "Bool",
            Byml::Int(_) => "Int",
            Byml::UInt(_) => "UInt",
            Byml::Int64(_) => "Int64",
            Byml::UInt64(_) => "UInt64",
            Byml::Float(_) => "Float",
            Byml::Double(_) => "Double",
            Byml::String(_) => "String",
            Byml::Binary(_) => "Binary",
            Byml::Array(_) => "Array",
            Byml::Hash(_) => "Hash",
        }
    }
}


/// The bool under `key`, or the failure `missing`.
pub open spec fn bool_field(h: Seq<(Seq<char>, BymlView)>, key: Seq<char>, missing: UKError)
    -> Result<bool, UKError> {
    match field(h, key, missing) {
        Ok(v) => view_bool(v),
        Err(e) => Err(e),
    }
}

/// The signed 32-bit integer under `key`, or the failure `missing`.
pub open spec fn int_field(h: Seq<(Seq<char>, BymlView)>, key: Seq<char>, missing: UKError)
    -> Result<i32, UKError> {
    match field(h, key, missing) {
        Ok(v) => view_int(v),
        Err(e) => Err(e),
    }
}

/// The string under `key`, or the failure `missing`.
pub open spec fn string_field(h: Seq<(Seq<char>, BymlView)>, key: Seq<char>, missing: UKError)
    -> Result<Seq<char>, UKError> {
    match field(h, key, missing) {
        Ok(v) => view_string(v),
        Err(e) => Err(e),
    }
}

/// The array under `key`, or the failure `missing`.
pub open spec fn array_field(h: Seq<(Seq<char>, BymlView)>, key: Seq<char>, missing: UKError)
    -> Result<Seq<BymlView>, UKError> {
    match field(h, key, missing) {
        Ok(v) => view_array(v),
        Err(e) => Err(e),
    }
}

/// The node under `key` in the entries of a map, or the failure `missing`.
pub fn get_field<'a>(entries: &'a Vec<(String, Byml)>, key: &str, missing: UKError) -> (r: Result<
    &'a Byml,
    UKError,
>)
    ensures
        read_as(r) == field(entries.deep_view(), key@, missing),
{
    match hash_get(entries, key) {
        Some(v) => Ok(v),
        None => Err(missing),
    }
}

/// The bool under `key` in the entries of a map.
pub fn get_bool(entries: &Vec<(String, Byml)>, key: &str, missing: UKError) -> (r: Result<
    bool,
    UKError,
>)
    ensures
        r == bool_field(entries.deep_view(), key@, missing),
{
    match get_field(entries, key, missing) {
        Ok(v) => v.as_bool(),
        Err(e) => Err(e),
    }
}

/// The signed 32-bit integer under `key` in the entries of a map.
pub fn get_int(entries: &Vec<(String, Byml)>, key: &str, missing: UKError) -> (r: Result<
    i32,
    UKError,
>)
    ensures
        r == int_field(entries.deep_view(), key@, missing),
{
    match get_field(entries, key, missing) {
        Ok(v) => v.as_int(),
        Err(e) => Err(e),
    }
}

/// A copy of the string under `key` in the entries of a map.
pub fn get_string(entries: &Vec<(String, Byml)>, key: &str, missing: UKError) -> (r: Result<
    String,
    UKError,
>)
    ensures
        read_as(r) == string_field(entries.deep_view(), key@, missing),
{
    match get_field(entries, key, missing) {
        Ok(v) => match v.as_string() {
            Ok(s) => Ok(s.clone()),
            Err(e) => Err(e),
        },
        Err(e) => Err(e),
    }
}

/// The items of the array under `key` in the entries of a map.
pub fn get_array<'a>(entries: &'a Vec<(String, Byml)>, key: &str, missing: UKError) -> (r: Result<
    &'a Vec<Byml>,
    UKError,
>)
    ensures
        read_as(r) == array_field(entries.deep_view(), key@, missing),
{
    match get_field(entries, key, missing) {
        Ok(v) => v.as_array(),
        Err(e) => Err(e),
    }
}

/// A map node with the given entries.
pub fn hash_node(entries: Vec<(String, Byml)>) -> (r: Byml)
    ensures
        r.tree() == BymlView::Hash(entries.deep_view()),
{
    proof {
        lemma_hash_tree(entries);
    }
    Byml::Hash(entries)
}

/// An array node with the given items.
pub fn array_node(items: Vec<Byml>) -> (r: Byml)
    ensures
        r.tree() == BymlView::Array(items.deep_view()),
{
    proof {
        lemma_array_tree(items);
    }
    Byml::Array(items)
}

/// A string node with a copy of `s`.
pub fn string_node(s: &str) -> (r: Byml)
    ensures
        r.tree() == BymlView::String(s@),
{
    Byml::String(s.to_owned())
}

/// A pair of a key and a node.
pub fn entry(key: &str, value: Byml) -> (r: (String, Byml))
    ensures
        r.deep_view() == (key@, value.tree()),
{
    (key.to_owned(), value)
}


/// A key that stands at `i` and nowhere in front of it is found there.
pub proof fn lemma_field_at(h: Seq<(Seq<char>, BymlView)>, i: int, missing: UKError)
    requires
        0 <= i < h.len(),
        forall|j: int| 0 <= j < i ==> (#[trigger] h[j]).0 != h[i].0,
    ensures
        field(h, h[i].0, missing) == Ok::<BymlView, UKError>(h[i].1),
{
    lemma_first_value(h, h[i].0, i);
}


/// The name that a map node carries under `key`.
pub open spec fn entry_name(v: BymlView, key: Seq<char>, missing: UKError) -> Result<
    Seq<char>,
    UKError,
> {
    match view_hash(v) {
        Err(e) => Err(e),
        Ok(h) => string_field(h, key, missing),
    }
}

/// Each node beside the name that it carries under `key`, in order, or the
/// failure of the first node that carries none.
pub open spec fn named_entries(items: Seq<BymlView>, key: Seq<char>, missing: UKError) -> Result<
    Seq<(Seq<char>, BymlView)>,
    UKError,
>
    decreases items.len(),
{
    if items.len() == 0 {
        Ok(Seq::empty())
    } else {
        match named_entries(items.drop_last(), key, missing) {
            Err(e) => Err(e),
            Ok(pairs) => match entry_name(items.last(), key, missing) {
                Err(e) => Err(e),
                Ok(name) => Ok(pairs.push((name, items.last()))),
            },
        }
    }
}

/// The values of the pairs, without their keys.
pub open spec fn values_of<K, X>(pairs: Seq<(K, X)>) -> Seq<X> {
    pairs.map_values(|e: (K, X)| e.1)
}

/// Every value carries its own key as its name under `key`.
pub open spec fn named_by(pairs: Seq<(Seq<char>, BymlView)>, key: Seq<char>, missing: UKError)
    -> bool {
    forall|i: int|
        0 <= i < pairs.len() ==> entry_name((#[trigger] pairs[i]).1, key, missing) == Ok::<
            Seq<char>,
            UKError,
        >(pairs[i].0)
}

/// A failure among the first nodes is the failure of the whole.
proof fn lemma_named_failure_stays(
    items: Seq<BymlView>,
    key: Seq<char>,
    missing: UKError,
    n: int,
)
    requires
        0 <= n <= items.len(),
        named_entries(items.take(n), key, missing) is Err,
    ensures
        named_entries(items, key, missing) == named_entries(items.take(n), key, missing),
    decreases items.len() - n,
{
    if n < items.len() {
        assert(items.take(n + 1).drop_last() =~= items.take(n));
        lemma_named_failure_stays(items, key, missing, n + 1);
    } else {
        assert(items.take(n) =~= items);
    }
}

/// The nodes of an array, each beside the name that it carries under
/// `key`.
pub fn read_named(items: &Vec<Byml>, key: &str, missing: UKError) -> (r: Result<
    Vec<(String, Byml)>,
    UKError,
>)
    ensures
        read_as(r) == named_entries(items.deep_view(), key@, missing),
{
    let mut out: Vec<(String, Byml)> = Vec::new();
    let mut i: usize = 0;
    let ghost s = items.deep_view();
    proof {
        assert(out.deep_view() =~= Seq::empty());
    }
    while i < items.len()
        invariant
            i <= items.len(),
            s == items.deep_view(),
            named_entries(s.take(i as int), key@, missing) == Ok::<
                Seq<(Seq<char>, BymlView)>,
                UKError,
            >(out.deep_view()),
        decreases items.len() - i,
    {
        proof {
            assert(s.take(i + 1).drop_last() =~= s.take(i as int));
            assert(s.take(i + 1).last() == s[i as int]);
        }
        let name = match items[i].as_hash() {
            Err(e) => Err(e),
            Ok(h) => get_string(h, key, missing),
        };
        match name {
            Err(e) => {
                proof {
                    lemma_named_failure_stays(s, key@, missing, i + 1);
                }
                return Err(e);
            },
            Ok(n) => {
                let ghost before = out.deep_view();
                out.push((n, items[i].copy()));
                proof {
                    assert(out.deep_view() =~= before.push((n@, s[i as int])));
                }
            },
        }
        i = i + 1;
    }
    proof {
        assert(s.take(i as int) =~= s);
    }
    Ok(out)
}

/// An array node of the values of the pairs, in order.
pub fn values_node(pairs: Vec<(String, Byml)>) -> (r: Byml)
    ensures
        r.tree() == BymlView::Array(values_of(pairs.deep_view())),
{
    let mut out: Vec<Byml> = Vec::new();
    let mut i: usize = 0;
    while i < pairs.len()
        invariant
            i <= pairs.len(),
            out.len() == i,
            forall|j: int| 0 <= j < i ==> #[trigger] out.deep_view()[j] == pairs.deep_view()[j].1,
        decreases pairs.len() - i,
    {
        let ghost before = out.deep_view();
        out.push(pairs[i].1.copy());
        proof {
            assert(out.deep_view() =~= before.push(pairs.deep_view()[i as int].1));
        }
        i = i + 1;
    }
    proof {
        assert(out.deep_view() =~= values_of(pairs.deep_view()));
    }
    array_node(out)
}

/// Values that carry their names are read back under them.
pub proof fn lemma_named_round_trip(
    pairs: Seq<(Seq<char>, BymlView)>,
    key: Seq<char>,
    missing: UKError,
)
    requires
        named_by(pairs, key, missing),
    ensures
        named_entries(values_of(pairs), key, missing) == Ok::<
            Seq<(Seq<char>, BymlView)>,
            UKError,
        >(pairs),
    decreases pairs.len(),
{
    if pairs.len() == 0 {
        assert(pairs =~= Seq::empty());
    } else {
        let t = pairs.drop_last();
        assert(named_by(t, key, missing)) by {
            assert forall|i: int| 0 <= i < t.len() implies entry_name(
                (#[trigger] t[i]).1,
                key,
                missing,
            ) == Ok::<Seq<char>, UKError>(t[i].0) by {
                assert(t[i] == pairs[i]);
            }
        }
        lemma_named_round_trip(t, key, missing);
        assert(values_of(pairs).drop_last() =~= values_of(t));
        assert(values_of(pairs).last() == pairs.last().1);
        assert(pairs[pairs.len() - 1] == pairs.last());
        assert(t.push(pairs.last()) =~= pairs);
    }
}

} // verus!
