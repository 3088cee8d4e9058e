//! Map represents an integer-to-integer mapping.
//!
//! A map is a partial function from raw `u32` keys to raw `u32` values; "no entry" differs
//! from "the value is 0", and every `u32` can be a key or a value. The key and value types
//! only decide how pairs enter and how they are shown when reading and iterating.

use crate::error::AllocationError;
use crate::pairs::{
    ascending, has_value, lemma_has_value_push, lemma_lookup_at, lemma_lookup_push,
    lemma_to_map_len, lemma_values, lookup, pair_find, pair_insert, pair_remove, pairs_equal,
    to_map,
};
use crate::set::{Element, IntSet, SET_VALUE_INVALID};
use crate::spans::{covers, lemma_covers_empty, members, span_insert, well_formed};
use std::marker::PhantomData;
use vstd::prelude::*;
use vstd::std_specs::cmp::PartialEqSpecImpl;

verus! {

/// Map objects are integer-to-integer maps.
///
/// The map can be specialized to work over other integer-like types, like [`char`]s.
#[derive(Debug, Hash)]
pub struct IntMap<K, V> {
    pairs: Vec<(u32, u32)>,
    marker: PhantomData<(K, V)>,
}

impl<K, V> View for IntMap<K, V> {
    type V = Map<u32, u32>;

    /// The raw key-value relation of the map.
    closed spec fn view(&self) -> Map<u32, u32> {
        to_map(self.pairs@)
    }
}

/// A copy of a list of pairs.
fn copy_pairs(s: &Vec<(u32, u32)>) -> (out: Vec<(u32, u32)>)
    ensures
        out@ == s@,
{
    let mut out: Vec<(u32, u32)> = Vec::new();
    let mut i: usize = 0;
    while i < s.len()
        invariant
            i <= s.len(),
            out@ == s@.take(i as int),
        decreases s.len() - i,
    {
        out.push(s[i]);
        i += 1;
        proof {
            assert(out@ =~= s@.take(i as int));
        }
    }
    proof {
        assert(s@.take(s.len() as int) =~= s@);
    }
    out
}

/// While one map is merged into another: what the merged pairs give for `q` once the first
/// pairs `read` of the updating map are in.
pub open spec fn merge_agrees(
    done: Seq<(u32, u32)>,
    base: Seq<(u32, u32)>,
    read: Seq<(u32, u32)>,
    q: u32,
) -> bool {
    lookup(done, q) == if lookup(read, q) is Some {
        lookup(read, q)
    } else {
        lookup(base, q)
    }
}

impl<K, V> IntMap<K, V> {
    #[verifier::type_invariant]
    spec fn inv(self) -> bool {
        ascending(self.pairs@)
    }

    /// The pairs of the map in the order in which iteration yields them.
    pub closed spec fn entries(&self) -> Seq<(u32, u32)> {
        self.pairs@
    }

    /// Creates a new, initially empty map.
    pub fn new() -> (r: Result<Self, AllocationError>)
        ensures
            r is Ok,
            r->Ok_0@ == Map::<u32, u32>::empty(),
    {
        let map = IntMap { pairs: Vec::new(), marker: PhantomData };
        proof {
            assert(map@ =~= Map::<u32, u32>::empty());
        }
        Ok(map)
    }

    /// Tests whether map is empty i.e. contains no elements.
    pub fn is_empty(&self) -> (r: bool)
        ensures
            r == (self@ == Map::<u32, u32>::empty()),
            self@.dom().finite(),
    {
        proof {
            use_type_invariant(self);
            lemma_to_map_len(self.pairs@);
            if self.pairs@.len() == 0 {
                assert(self@ =~= Map::<u32, u32>::empty());
            } else {
                lemma_lookup_at(self.pairs@, 0);
                assert(self@.contains_key(self.pairs@[0].0));
            }
        }
        self.pairs.len() == 0
    }

    /// Returns the number of key-value pairs in the map.
    pub fn len(&self) -> (n: usize)
        ensures
            self@.dom().finite(),
            n == self@.dom().len(),
    {
        proof {
            use_type_invariant(self);
            lemma_to_map_len(self.pairs@);
        }
        self.pairs.len()
    }

    /// Clears out the contents of a map.
    pub fn clear(&mut self)
        ensures
            final(self)@ == Map::<u32, u32>::empty(),
    {
        self.pairs = Vec::new();
        proof {
            assert(self@ =~= Map::<u32, u32>::empty());
        }
    }

    /// Constructs a copy of the map that shares nothing with `self`.
    pub fn clone_static(&self) -> (r: IntMap<K, V>)
        ensures
            r@ == self@,
            r.entries() == self.entries(),
    {
        proof {
            use_type_invariant(self);
        }
        IntMap { pairs: copy_pairs(&self.pairs), marker: PhantomData }
    }

    /// Adds the contents of `other` to map: where both have a key, the value of `other`
    /// replaces the one of `self`.
    pub fn update(&mut self, other: &Self)
        ensures
            final(self)@ == old(self)@.union_prefer_right(other@),
            forall|k: u32|
                other@.contains_key(k) ==> #[trigger] final(self)@.contains_key(k)
                    && final(self)@[k] == other@[k],
            forall|k: u32|
                !other@.contains_key(k) && old(self)@.contains_key(k) ==> #[trigger] final(
                    self
                )@.contains_key(k) && final(self)@[k] == old(self)@[k],
            forall|k: u32|
                !other@.contains_key(k) && !old(self)@.contains_key(k) ==> !(#[trigger] final(
                    self
                )@.contains_key(k)),
    {
        proof {
            use_type_invariant(&*self);
            use_type_invariant(other);
        }
        let mut cur: Vec<(u32, u32)> = copy_pairs(&self.pairs);
        let mut i: usize = 0;
        while i < other.pairs.len()
            invariant
                i <= other.pairs.len(),
                ascending(cur@),
                ascending(other.pairs@),
                forall|q: u32| #[trigger]
                    merge_agrees(cur@, old(self).pairs@, other.pairs@.take(i as int), q),
            decreases other.pairs.len() - i,
        {
            let p = other.pairs[i];
            let ghost done0 = cur@;
            let ghost read0 = other.pairs@.take(i as int);
            cur = pair_insert(&cur, p.0, p.1);
            i += 1;
            proof {
                let read1 = other.pairs@.take(i as int);
                assert(read1 =~= read0.push(p));
                assert forall|q: u32| #[trigger]
                    merge_agrees(cur@, old(self).pairs@, read1, q) by {
                    assert(merge_agrees(done0, old(self).pairs@, read0, q));
                    lemma_lookup_push(read0, p, q);
                    assert(lookup(cur@, q) == if q == p.0 {
                        Some(p.1)
                    } else {
                        lookup(done0, q)
                    });
                }
            }
        }
        proof {
            assert(other.pairs@.take(other.pairs.len() as int) =~= other.pairs@);
            let merged = old(self)@.union_prefer_right(other@);
            assert forall|q: u32| #[trigger]
                to_map(cur@).dom().contains(q) <==> merged.dom().contains(q) by {
                assert(merge_agrees(cur@, old(self).pairs@, other.pairs@, q));
            }
            assert forall|q: u32| to_map(cur@).dom().contains(q) implies #[trigger] to_map(
                cur@,
            )[q] == merged[q] by {
                assert(merge_agrees(cur@, old(self).pairs@, other.pairs@, q));
            }
            assert(to_map(cur@) =~= merged);
        }
        self.pairs = cur;
    }

    /// Converts the map into its raw form: its pairs in ascending key order.
    pub fn into_raw(self) -> (r: Vec<(u32, u32)>)
        ensures
            r@ == self.entries(),
            ascending(r@),
            to_map(r@) == self@,
    {
        proof {
            use_type_invariant(&self);
        }
        self.pairs
    }

    /// Exposes the raw form of the map without giving it away.
    pub fn as_raw(&self) -> (r: &Vec<(u32, u32)>)
        ensures
            r@ == self.entries(),
            ascending(r@),
            to_map(r@) == self@,
    {
        proof {
            use_type_invariant(self);
        }
        &self.pairs
    }

    /// Constructs a map from its raw form.
    ///
    /// The list must be one that [`Self::into_raw`] or [`Self::as_raw`] can give: pairs whose
    /// keys ascend strictly.
    pub fn from_raw(pairs: Vec<(u32, u32)>) -> (r: Self)
        requires
            ascending(pairs@),
        ensures
            r@ == to_map(pairs@),
            r.entries() == pairs@,
    {
        IntMap { pairs, marker: PhantomData }
    }
}

impl<K: Element, V: Element> IntMap<K, V> {
    /// Tests whether the map contains a key.
    pub fn contains(&self, key: K) -> (r: bool)
        ensures
            r == self@.contains_key(key.raw()),
    {
        proof {
            use_type_invariant(self);
        }
        pair_find(&self.pairs, key.into_raw()).is_some()
    }

    /// Removes key and its associated value from map.
    pub fn remove(&mut self, key: K)
        ensures
            final(self)@ == old(self)@.remove(key.raw()),
    {
        proof {
            use_type_invariant(&*self);
        }
        let pairs = pair_remove(&self.pairs, key.into_raw());
        proof {
            assert(to_map(pairs@) =~= self@.remove(key.raw()));
        }
        self.pairs = pairs;
    }

    /// Inserts a key-value pair to map; a value that the key had before is replaced.
    pub fn insert(&mut self, key: K, value: V)
        ensures
            final(self)@ == old(self)@.insert(key.raw(), value.raw()),
    {
        proof {
            use_type_invariant(&*self);
        }
        let pairs = pair_insert(&self.pairs, key.into_raw(), value.into_raw());
        proof {
            assert(to_map(pairs@) =~= self@.insert(key.raw(), value.raw()));
        }
        self.pairs = pairs;
    }

    /// Gets a value based on a key.
    ///
    /// Gives nothing when the key has no entry, and when its raw value stands for no `V`.
    pub fn get(&self, key: K) -> (r: Option<V>)
        ensures
            r == if self@.contains_key(key.raw()) {
                V::typed(self@[key.raw()])
            } else {
                None
            },
    {
        proof {
            use_type_invariant(self);
        }
        match pair_find(&self.pairs, key.into_raw()) {
            Some(i) => V::try_from_raw(self.pairs[i].1),
            None => None,
        }
    }
}

impl<K, V> Clone for IntMap<K, V> {
    fn clone(&self) -> (r: Self)
        ensures
            r@ == self@,
    {
        self.clone_static()
    }
}

/// While the keys of a map are gathered: the spans written so far hold `v` exactly when
/// it is a key among the pairs read so far and not the invalid value.
pub open spec fn keys_agree(done: Seq<(u32, u32)>, read: Seq<(u32, u32)>, v: u32) -> bool {
    covers(done, v) <==> (v != SET_VALUE_INVALID && lookup(read, v) is Some)
}

/// While the values of a map are gathered: the spans written so far hold `v` exactly when
/// it is a value among the pairs read so far and not the invalid value.
pub open spec fn values_agree(done: Seq<(u32, u32)>, read: Seq<(u32, u32)>, v: u32) -> bool {
    covers(done, v) <==> (v != SET_VALUE_INVALID && has_value(read, v))
}

/// The map that inserting the pairs of `items` one after the other gives: of two pairs with
/// one key the later one stays.
pub open spec fn collected<K: Element, V: Element>(items: Seq<(K, V)>) -> Map<u32, u32>
    decreases items.len(),
{
    if items.len() == 0 {
        Map::empty()
    } else {
        collected(items.drop_last()).insert(items.last().0.raw(), items.last().1.raw())
    }
}

impl<K, V> IntMap<K, V> {
    /// Gets the set of keys that have been defined.
    ///
    /// A set cannot hold [`SET_VALUE_INVALID`]: that key, if present, is left out.
    pub fn keys(&self) -> (r: Result<IntSet<K>, AllocationError>)
        ensures
            r is Ok,
            r->Ok_0@ == self@.dom().remove(SET_VALUE_INVALID),
    {
        proof {
            use_type_invariant(self);
        }
        let mut spans: Vec<(u32, u32)> = Vec::new();
        let mut i: usize = 0;
        proof {
            lemma_covers_empty(spans@);
        }
        while i < self.pairs.len()
            invariant
                i <= self.pairs.len(),
                well_formed(spans@),
                forall|v: u32| #[trigger] keys_agree(spans@, self.pairs@.take(i as int), v),
            decreases self.pairs.len() - i,
        {
            let p = self.pairs[i];
            let ghost done0 = spans@;
            let ghost read0 = self.pairs@.take(i as int);
            if p.0 != SET_VALUE_INVALID {
                spans = span_insert(&spans, p.0, p.0);
            }
            i += 1;
            proof {
                let read1 = self.pairs@.take(i as int);
                assert(read1 =~= read0.push(p));
                assert forall|v: u32| #[trigger] keys_agree(spans@, read1, v) by {
                    assert(keys_agree(done0, read0, v));
                    lemma_lookup_push(read0, p, v);
                    if p.0 != SET_VALUE_INVALID {
                        assert(covers(spans@, v) <==> covers(done0, v) || p.0 <= v <= p.0);
                    }
                }
            }
        }
        proof {
            assert(self.pairs@.take(self.pairs.len() as int) =~= self.pairs@);
            assert forall|v: u32|
                members(spans@).contains(v) <==> self@.dom().remove(SET_VALUE_INVALID).contains(
                    v,
                ) by {
                assert(keys_agree(spans@, self.pairs@, v));
            }
            assert(members(spans@) =~= self@.dom().remove(SET_VALUE_INVALID));
        }
        Ok(IntSet::from_raw(spans))
    }

    /// Gets the set of values that are associated with a key.
    ///
    /// Values that several keys share occur once. A set cannot hold [`SET_VALUE_INVALID`]:
    /// that value, if present, is left out.
    pub fn values(&self) -> (r: Result<IntSet<V>, AllocationError>)
        ensures
            r is Ok,
            r->Ok_0@ == self@.values().remove(SET_VALUE_INVALID),
    {
        proof {
            use_type_invariant(self);
        }
        let mut spans: Vec<(u32, u32)> = Vec::new();
        let mut i: usize = 0;
        proof {
            lemma_covers_empty(spans@);
        }
        while i < self.pairs.len()
            invariant
                i <= self.pairs.len(),
                well_formed(spans@),
                forall|v: u32| #[trigger] values_agree(spans@, self.pairs@.take(i as int), v),
            decreases self.pairs.len() - i,
        {
            let p = self.pairs[i];
            let ghost done0 = spans@;
            let ghost read0 = self.pairs@.take(i as int);
            if p.1 != SET_VALUE_INVALID {
                spans = span_insert(&spans, p.1, p.1);
            }
            i += 1;
            proof {
                let read1 = self.pairs@.take(i as int);
                assert(read1 =~= read0.push(p));
                assert forall|v: u32| #[trigger] values_agree(spans@, read1, v) by {
                    assert(values_agree(done0, read0, v));
                    lemma_has_value_push(read0, p, v);
                    if p.1 != SET_VALUE_INVALID {
                        assert(covers(spans@, v) <==> covers(done0, v) || p.1 <= v <= p.1);
                    }
                }
            }
        }
        proof {
            assert(self.pairs@.take(self.pairs.len() as int) =~= self.pairs@);
            assert forall|v: u32|
                members(spans@).contains(v) <==> self@.values().remove(
                    SET_VALUE_INVALID,
                ).contains(v) by {
                assert(values_agree(spans@, self.pairs@, v));
                lemma_values(self.pairs@, v);
            }
            assert(members(spans@) =~= self@.values().remove(SET_VALUE_INVALID));
        }
        Ok(IntSet::from_raw(spans))
    }
}

impl<K: Element, V: Element> IntMap<K, V> {
    /// Builds a map by inserting the pairs of `items` one after the other.
    pub fn from_iter(items: Vec<(K, V)>) -> (r: Self)
        ensures
            r@ == collected(items@),
    {
        let mut pairs: Vec<(u32, u32)> = Vec::new();
        let mut i: usize = 0;
        proof {
            assert(to_map(pairs@) =~= collected(items@.take(0)));
        }
        while i < items.len()
            invariant
                i <= items.len(),
                ascending(pairs@),
                to_map(pairs@) == collected(items@.take(i as int)),
            decreases items.len() - i,
        {
            let item = items[i];
            let ghost prev = pairs@;
            pairs = pair_insert(&pairs, item.0.into_raw(), item.1.into_raw());
            i += 1;
            proof {
                assert(items@.take(i as int).drop_last() =~= items@.take(i - 1));
                assert(to_map(pairs@) =~= to_map(prev).insert(item.0.raw(), item.1.raw()));
            }
        }
        proof {
            assert(items@.take(items.len() as int) =~= items@);
        }
        IntMap { pairs, marker: PhantomData }
    }
}

impl<K, V> PartialEq for IntMap<K, V> {
    fn eq(&self, other: &Self) -> (r: bool) {
        proof {
            use_type_invariant(self);
            use_type_invariant(other);
        }
        pairs_equal(&self.pairs, &other.pairs)
    }
}

impl<K, V> PartialEqSpecImpl for IntMap<K, V> {
    open spec fn obeys_eq_spec() -> bool {
        true
    }

    open spec fn eq_spec(&self, other: &Self) -> bool {
        self@ == other@
    }
}

impl<K: Eq, V: Eq> Eq for IntMap<K, V> {

}

/// Iterator over raw elements of a map, disregarding whether they can be represented as
/// `(K, V)`.
pub struct IterImpl<'m, K, V>(&'m IntMap<K, V>, usize);

impl<'m, K, V> IterImpl<'m, K, V> {
    /// The pairs that the iterator walks, in its order.
    pub closed spec fn order(&self) -> Seq<(u32, u32)> {
        self.0.entries()
    }

    /// How many pairs the iterator has passed.
    pub closed spec fn position(&self) -> int {
        self.1 as int
    }

    /// Starts a walk over the pairs of `map`.
    pub fn new(map: &'m IntMap<K, V>) -> (r: Self)
        ensures
            r.order() == map.entries(),
            r.position() == 0,
            ascending(r.order()),
            to_map(r.order()) == map@,
    {
        proof {
            use_type_invariant(map);
        }
        IterImpl(map, 0)
    }

    /// Gives the next pair, or nothing, for good, once every pair has been given.
    pub fn next(&mut self) -> (r: Option<(u32, u32)>)
        ensures
            final(self).order() == old(self).order(),
            0 <= final(self).position() <= final(self).order().len(),
            match r {
                Some(p) => {
                    &&& 0 <= old(self).position() < old(self).order().len()
                    &&& p == old(self).order()[old(self).position()]
                    &&& final(self).position() == old(self).position() + 1
                },
                None => {
                    &&& old(self).position() >= old(self).order().len()
                    &&& final(self).position() == final(self).order().len()
                },
            },
    {
        let pairs = self.0.as_raw();
        if self.1 < pairs.len() {
            let p = pairs[self.1];
            self.1 = self.1 + 1;
            Some(p)
        } else {
            self.1 = pairs.len();
            None
        }
    }
}

/// Whether the raw pair `p` stands for a pair of a `K` and a `V`.
pub open spec fn pair_typed<K: Element, V: Element>(p: (u32, u32)) -> bool {
    K::typed(p.0) is Some && V::typed(p.1) is Some
}

/// Iterator over [`IntMap`] key-value pairs.
///
/// Use [`IntMap::iter`] to construct [`Iter`]. It passes over pairs whose raw key stands for
/// no `K` or whose raw value stands for no `V`.
pub struct Iter<'m, K, V>(IterImpl<'m, K, V>);

impl<'m, K: Element, V: Element> Iter<'m, K, V> {
    /// The raw pairs that the iterator walks, in its order.
    pub closed spec fn order(&self) -> Seq<(u32, u32)> {
        self.0.order()
    }

    /// How many raw pairs the iterator has passed.
    pub closed spec fn position(&self) -> int {
        self.0.position()
    }

    /// Gives the next pair that stands for a `K` and a `V`, passing over those before it that
    /// do not; gives nothing, for good, when no such pair is left.
    pub fn next(&mut self) -> (r: Option<(K, V)>)
        ensures
            final(self).order() == old(self).order(),
            match r {
                Some((k, v)) => {
                    &&& old(self).position() < final(self).position() <= old(self).order().len()
                    &&& old(self).order()[final(self).position() - 1] == (k.raw(), v.raw())
                    &&& K::typed(k.raw()) == Some(k)
                    &&& V::typed(v.raw()) == Some(v)
                    &&& forall|i: int|
                        old(self).position() <= i < final(self).position() - 1 ==> !pair_typed::<
                            K,
                            V,
                        >(#[trigger] old(self).order()[i])
                },
                None => {
                    &&& final(self).position() == old(self).order().len()
                    &&& forall|i: int|
                        old(self).position() <= i < old(self).order().len() ==> !pair_typed::<
                            K,
                            V,
                        >(#[trigger] old(self).order()[i])
                },
            },
    {
        loop
            invariant
                self.0.order() == old(self).0.order(),
                old(self).0.position() <= self.0.position(),
                forall|i: int|
                    old(self).position() <= i < self.0.position() && i < self.0.order().len()
                        ==> !pair_typed::<K, V>(#[trigger] old(self).order()[i]),
            decreases self.0.order().len() - self.0.position(),
        {
            match self.0.next() {
                None => {
                    return None;
                },
                Some(p) => {
                    match K::try_from_raw(p.0) {
                        Some(k) => {
                            match V::try_from_raw(p.1) {
                                Some(v) => {
                                    proof {
                                        K::lemma_raw_typed(p.0);
                                        V::lemma_raw_typed(p.1);
                                    }
                                    return Some((k, v));
                                },
                                None => {},
                            }
                        },
                        None => {},
                    }
                },
            }
        }
    }
}

impl<K: Element, V: Element> IntMap<K, V> {
    /// Gets an iterator over key-value pairs stored in the map: each pair of the map once,
    /// in ascending order of the raw keys.
    pub fn iter(&self) -> (r: Iter<'_, K, V>)
        ensures
            r.order() == self.entries(),
            r.position() == 0,
            ascending(r.order()),
            to_map(r.order()) == self@,
    {
        Iter(IterImpl::new(self))
    }
}

} // verus!
