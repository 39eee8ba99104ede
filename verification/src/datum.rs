//! What the containers ask of the things they hold: a mathematical value, a
//! test for equal values, and a deep copy.

use vstd::prelude::*;

verus! {

/// A piece of data with a mathematical value (its deep view), an executable
/// test that two pieces have the same value, and a copy with the same value.
pub trait Datum: DeepView + Sized {
    /// Whether `self` and `other` have the same value.
    fn same(&self, other: &Self) -> (r: bool)
        ensures
            r == (self.deep_view() == other.deep_view()),
    ;

    /// A copy with the same value.
    fn dup(&self) -> (r: Self)
        ensures
            r.deep_view() == self.deep_view(),
    ;
}

/// A key that can be found again through an index from keys to places,
/// without a walk through the entries.
pub trait Key: Datum {
    /// The index.
    type Index;

    /// The places that the index holds, by key.
    spec fn places(index: &Self::Index) -> Map<Self::V, usize>;

    /// An index without keys.
    fn index_new() -> (r: Self::Index)
        ensures
            Self::places(&r) == Map::<Self::V, usize>::empty(),
    ;

    /// Notes that `key` stands at the place `at`.
    fn index_put(index: &mut Self::Index, key: &Self, at: usize)
        ensures
            Self::places(final(index)) == Self::places(old(index)).insert(key.deep_view(), at),
    ;

    /// The place that the index holds for `key`.
    fn index_get(index: &Self::Index, key: &Self) -> (r: Option<usize>)
        ensures
            r == if Self::places(index).contains_key(key.deep_view()) {
                Some(Self::places(index)[key.deep_view()])
            } else {
                None
            },
    ;
}

/// A key with a strict total order on its values.
pub trait OrdKey: Datum {
    /// The order: `a` comes strictly before `b`.
    spec fn before(a: Self::V, b: Self::V) -> bool;

    /// Whether `self` comes strictly before `other`.
    fn precedes(&self, other: &Self) -> (r: bool)
        ensures
            r == Self::before(self.deep_view(), other.deep_view()),
    ;

    /// Nothing comes before itself.
    proof fn before_irreflexive(a: Self::V)
        ensures
            !Self::before(a, a),
    ;

    /// The order is transitive.
    proof fn before_transitive(a: Self::V, b: Self::V, c: Self::V)
        requires
            Self::before(a, b),
            Self::before(b, c),
        ensures
            Self::before(a, c),
    ;

    /// Two different values are ordered one way or the other.
    proof fn before_total(a: Self::V, b: Self::V)
        ensures
            a == b || Self::before(a, b) || Self::before(b, a),
    ;
}

impl Datum for bool {
    fn same(&self, other: &Self) -> (r: bool) {
        *self == *other
    }

    fn dup(&self) -> (r: Self) {
        *self
    }
}

impl Datum for u8 {
    fn same(&self, other: &Self) -> (r: bool) {
        *self == *other
    }

    fn dup(&self) -> (r: Self) {
        *self
    }
}

impl Datum for char {
    fn same(&self, other: &Self) -> (r: bool) {
        *self == *other
    }

    fn dup(&self) -> (r: Self) {
        *self
    }
}

impl Datum for u32 {
    fn same(&self, other: &Self) -> (r: bool) {
        *self == *other
    }

    fn dup(&self) -> (r: Self) {
        *self
    }
}

impl Datum for i32 {
    fn same(&self, other: &Self) -> (r: bool) {
        *self == *other
    }

    fn dup(&self) -> (r: Self) {
        *self
    }
}

impl Datum for usize {
    fn same(&self, other: &Self) -> (r: bool) {
        *self == *other
    }

    fn dup(&self) -> (r: Self) {
        *self
    }
}

impl Datum for String {
    fn same(&self, other: &Self) -> (r: bool) {
        *self == *other
    }

    fn dup(&self) -> (r: Self) {
        self.clone()
    }
}

impl Key for String {
    type Index = vstd::hash_map::StringHashMap<usize>;

    open spec fn places(index: &Self::Index) -> Map<Seq<char>, usize> {
        index@
    }

    fn index_new() -> (r: Self::Index) {
        vstd::hash_map::StringHashMap::new()
    }

    fn index_put(index: &mut Self::Index, key: &Self, at: usize) {
        index.insert(key.clone(), at);
    }

    fn index_get(index: &Self::Index, key: &Self) -> (r: Option<usize>) {
        match index.get(key.as_str()) {
            Some(at) => Some(*at),
            None => None,
        }
    }
}

impl Key for u32 {
    type Index = vstd::hash_map::HashMapWithView<u32, usize>;

    open spec fn places(index: &Self::Index) -> Map<u32, usize> {
        index@
    }

    fn index_new() -> (r: Self::Index) {
        broadcast use vstd::std_specs::hash::axiom_u32_obeys_hash_table_key_model;

        vstd::hash_map::HashMapWithView::new()
    }

    fn index_put(index: &mut Self::Index, key: &Self, at: usize) {
        index.insert(*key, at);
    }

    fn index_get(index: &Self::Index, key: &Self) -> (r: Option<usize>) {
        match index.get(key) {
            Some(at) => Some(*at),
            None => None,
        }
    }
}

impl<T: Datum> Datum for Option<T> {
    fn same(&self, other: &Self) -> (r: bool) {
        match (self, other) {
            (Some(a), Some(b)) => a.same(b),
            (None, None) => true,
            _ => false,
        }
    }

    fn dup(&self) -> (r: Self) {
        match self {
            Some(a) => Some(a.dup()),
            None => None,
        }
    }
}

impl<A: Datum, B: Datum> Datum for (A, B) {
    fn same(&self, other: &Self) -> (r: bool) {
        self.0.same(&other.0) && self.1.same(&other.1)
    }

    fn dup(&self) -> (r: Self) {
        (self.0.dup(), self.1.dup())
    }
}

impl<T: Datum> Datum for Vec<T> {
    fn same(&self, other: &Self) -> (r: bool) {
        if self.len() != other.len() {
            assert(self.deep_view().len() != other.deep_view().len());
            return false;
        }
        let mut i: usize = 0;
        while i < self.len()
            invariant
                i <= self.len(),
                self.len() == other.len(),
                forall|j: int| 0 <= j < i ==> self.deep_view()[j] == other.deep_view()[j],
            decreases self.len() - i,
        {
            if !self[i].same(&other[i]) {
                assert(self.deep_view()[i as int] != other.deep_view()[i as int]);
                return false;
            }
            i = i + 1;
        }
        assert(self.deep_view() =~= other.deep_view());
        true
    }

    fn dup(&self) -> (r: Self) {
        let mut out: Vec<T> = Vec::new();
        let mut i: usize = 0;
        while i < self.len()
            invariant
                i <= self.len(),
                out.len() == i,
                forall|j: int| 0 <= j < i ==> out.deep_view()[j] == self.deep_view()[j],
            decreases self.len() - i,
        {
            out.push(self[i].dup());
            i = i + 1;
        }
        assert(out.deep_view() =~= self.deep_view());
        out
    }
}

impl OrdKey for u32 {
    open spec fn before(a: u32, b: u32) -> bool {
        a < b
    }

    fn precedes(&self, other: &Self) -> (r: bool) {
        *self < *other
    }

    proof fn before_irreflexive(a: u32) {
    }

    proof fn before_transitive(a: u32, b: u32, c: u32) {
    }

    proof fn before_total(a: u32, b: u32) {
    }
}

impl OrdKey for i32 {
    open spec fn before(a: i32, b: i32) -> bool {
        a < b
    }

    fn precedes(&self, other: &Self) -> (r: bool) {
        *self < *other
    }

    proof fn before_irreflexive(a: i32) {
    }

    proof fn before_transitive(a: i32, b: i32, c: i32) {
    }

    proof fn before_total(a: i32, b: i32) {
    }
}

impl OrdKey for usize {
    open spec fn before(a: usize, b: usize) -> bool {
        a < b
    }

    fn precedes(&self, other: &Self) -> (r: bool) {
        *self < *other
    }

    proof fn before_irreflexive(a: usize) {
    }

    proof fn before_transitive(a: usize, b: usize, c: usize) {
    }

    proof fn before_total(a: usize, b: usize) {
    }
}

impl OrdKey for String {
    open spec fn before(a: Seq<char>, b: Seq<char>) -> bool {
        crate::text::bytes_before(vstd::utf8::encode_utf8(a), vstd::utf8::encode_utf8(b))
    }

    fn precedes(&self, other: &Self) -> (r: bool) {
        crate::text::str_before(self.as_str(), other.as_str())
    }

    proof fn before_irreflexive(a: Seq<char>) {
        crate::text::lemma_bytes_before_irreflexive(vstd::utf8::encode_utf8(a));
    }

    proof fn before_transitive(a: Seq<char>, b: Seq<char>, c: Seq<char>) {
        crate::text::lemma_bytes_before_transitive(
            vstd::utf8::encode_utf8(a),
            vstd::utf8::encode_utf8(b),
            vstd::utf8::encode_utf8(c),
        );
    }

    proof fn before_total(a: Seq<char>, b: Seq<char>) {
        crate::text::lemma_bytes_before_total(
            vstd::utf8::encode_utf8(a),
            vstd::utf8::encode_utf8(b),
        );
        if vstd::utf8::encode_utf8(a) == vstd::utf8::encode_utf8(b) {
            vstd::utf8::encode_utf8_decode_utf8(a);
            vstd::utf8::encode_utf8_decode_utf8(b);
        }
    }
}

} // verus!
