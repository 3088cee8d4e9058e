//! Sets of integer-like values: code points, glyph ids, tags.
//!
//! A set holds raw `u32` values below [`SET_VALUE_INVALID`]. The element type only decides how
//! values enter and how they are shown when iterating; membership, size, equality and
//! containment always speak of the raw values.

use crate::common::Tag;
use crate::error::AllocationError;
use crate::spans::{
    covers, floor_of, in_span, interval, lemma_covers_empty, lemma_interval_len,
    lemma_members_len, members, span_contains, span_insert, span_len, span_next, span_previous,
    span_remove, span_subset, well_formed,
};
use crate::text::{listing, push_char, push_decimal};
use std::marker::PhantomData;
use vstd::prelude::*;
use vstd::set_lib::lemma_set_intersect_union_lens;
use vstd::std_specs::cmp::PartialEqSpecImpl;

verus! {

/// The one value that no set can hold; cursors use it for "no value".
pub const SET_VALUE_INVALID: u32 = u32::MAX;

/// The greatest code point that is a Unicode scalar value.
pub const MAX_SCALAR: u32 = 0x10FFFF;

/// Whether `v` is a Unicode scalar value: a code point that is no surrogate.
pub open spec fn is_scalar(v: u32) -> bool {
    v < 0xD800 || (0xDFFF < v && v <= MAX_SCALAR)
}

/// A type whose values can be members of an [`IntSet`].
pub trait Element: Copy + Sized {
    /// The raw value that stands for `self` in a set.
    spec fn raw(self) -> u32;

    /// The element that the raw value `v` stands for, if there is one.
    spec fn typed(v: u32) -> Option<Self>;

    /// The last raw value of a range without an upper bound.
    spec fn open_end() -> u32;

    /// Converts the element into its raw value.
    fn into_raw(self) -> (r: u32)
        ensures
            r == self.raw(),
    ;

    /// Converts a raw value into the element it stands for.
    fn try_from_raw(v: u32) -> (r: Option<Self>)
        ensures
            r == Self::typed(v),
    ;

    /// The last raw value of a range without an upper bound; never the invalid value.
    fn unbounded_end() -> (r: u32)
        ensures
            r == Self::open_end(),
            r < SET_VALUE_INVALID,
    ;

    /// Every element is what its own raw value stands for.
    proof fn lemma_typed_raw(self)
        ensures
            Self::typed(self.raw()) == Some(self),
    ;

    /// A raw value stands for no element but one whose raw value it is.
    proof fn lemma_raw_typed(v: u32)
        ensures
            Self::typed(v) matches Some(x) ==> x.raw() == v,
    ;
}

impl Element for u32 {
    open spec fn raw(self) -> u32 {
        self
    }

    open spec fn typed(v: u32) -> Option<u32> {
        Some(v)
    }

    open spec fn open_end() -> u32 {
        (u32::MAX - 1) as u32
    }

    fn into_raw(self) -> (r: u32) {
        self
    }

    fn try_from_raw(v: u32) -> (r: Option<u32>) {
        Some(v)
    }

    fn unbounded_end() -> (r: u32) {
        u32::MAX - 1
    }

    proof fn lemma_typed_raw(self) {
    }

    proof fn lemma_raw_typed(v: u32) {
    }
}

impl Element for Tag {
    open spec fn raw(self) -> u32 {
        self.0
    }

    open spec fn typed(v: u32) -> Option<Tag> {
        Some(Tag(v))
    }

    open spec fn open_end() -> u32 {
        (u32::MAX - 1) as u32
    }

    fn into_raw(self) -> (r: u32) {
        self.0
    }

    fn try_from_raw(v: u32) -> (r: Option<Tag>) {
        Some(Tag(v))
    }

    fn unbounded_end() -> (r: u32) {
        u32::MAX - 1
    }

    proof fn lemma_typed_raw(self) {
    }

    proof fn lemma_raw_typed(v: u32) {
    }
}

/// `char::from_u32` of std: the character with code point `v` when `v` is a Unicode scalar
/// value, and nothing for a surrogate or a value above `0x10FFFF`.
#[verifier::external_body]
fn char_from_u32(v: u32) -> (r: Option<char>)
    ensures
        r == (if is_scalar(v) {
            Some(v as char)
        } else {
            None::<char>
        }),
{
    char::from_u32(v)
}

/// A character's code point is a scalar value, and the character of that value is itself.
pub proof fn lemma_char_round_trip(c: char)
    ensures
        is_scalar(c as u32),
        (c as u32) as char == c,
{
}

impl Element for char {
    open spec fn raw(self) -> u32 {
        self as u32
    }

    open spec fn typed(v: u32) -> Option<char> {
        if is_scalar(v) {
            Some(v as char)
        } else {
            None
        }
    }

    open spec fn open_end() -> u32 {
        MAX_SCALAR
    }

    fn into_raw(self) -> (r: u32) {
        self as u32
    }

    fn try_from_raw(v: u32) -> (r: Option<char>) {
        char_from_u32(v)
    }

    fn unbounded_end() -> (r: u32) {
        MAX_SCALAR
    }

    proof fn lemma_typed_raw(self) {
        lemma_char_round_trip(self);
    }

    proof fn lemma_raw_typed(v: u32) {
    }
}

/// One end of a range of elements.
#[derive(Debug)]
pub enum Bound<T> {
    /// The range reaches this element and holds it.
    Included(T),
    /// The range reaches this element and leaves it out.
    Excluded(T),
    /// The range has no end on this side.
    Unbounded,
}

/// The first raw value of a range that starts at `lower`, if any value can be first.
pub open spec fn first_of<T: Element>(lower: Bound<T>) -> Option<u32> {
    match lower {
        Bound::Included(x) => Some(x.raw()),
        Bound::Excluded(x) => if x.raw() == u32::MAX {
            None
        } else {
            Some((x.raw() + 1) as u32)
        },
        Bound::Unbounded => Some(0u32),
    }
}

/// The last raw value of a range that ends at `upper`, if any value can be last.
pub open spec fn last_of<T: Element>(upper: Bound<T>) -> Option<u32> {
    match upper {
        Bound::Included(x) => Some(x.raw()),
        Bound::Excluded(x) => if x.raw() == 0 {
            None
        } else {
            Some((x.raw() - 1) as u32)
        },
        Bound::Unbounded => Some(T::open_end()),
    }
}

/// The closed interval of raw values that a range stands for; none when the range is empty
/// or inverted.
pub open spec fn closed_bounds<T: Element>(lower: Bound<T>, upper: Bound<T>) -> Option<
    (u32, u32),
> {
    match (first_of(lower), last_of(upper)) {
        (Some(lo), Some(hi)) => if lo <= hi {
            Some((lo, hi))
        } else {
            None
        },
        _ => None,
    }
}

/// Whether a range names the invalid value as its included upper end, which no set operation
/// accepts. A range that can have no first value is empty and names nothing.
pub open spec fn names_invalid<T: Element>(lower: Bound<T>, upper: Bound<T>) -> bool {
    first_of(lower) is Some && match upper {
        Bound::Included(x) => x.raw() == SET_VALUE_INVALID,
        _ => false,
    }
}

/// The raw values that a range stands for.
pub open spec fn range_values<T: Element>(lower: Bound<T>, upper: Bound<T>) -> Set<u32> {
    match closed_bounds(lower, upper) {
        Some((lo, hi)) => interval(lo, hi),
        None => Set::empty(),
    }
}

/// Every value that a set can hold: all of `u32` but [`SET_VALUE_INVALID`].
pub open spec fn everything() -> Set<u32> {
    interval(0, (SET_VALUE_INVALID - 1) as u32)
}

/// A range stands for as many values as lie between its closed bounds, and for none when it
/// is empty or inverted. Inserting it into a set gives a set with the members it had, plus
/// the values of the range, minus the values of the range that it held already.
pub proof fn lemma_insert_range_len<T: Element>(
    before: Set<u32>,
    lower: Bound<T>,
    upper: Bound<T>,
)
    requires
        before.finite(),
    ensures
        range_values(lower, upper).finite(),
        range_values(lower, upper).len() == match closed_bounds(lower, upper) {
            Some((lo, hi)) => hi - lo + 1,
            None => 0,
        },
        (before + range_values(lower, upper)).len() == before.len() + range_values(
            lower,
            upper,
        ).len() - before.intersect(range_values(lower, upper)).len(),
{
    match closed_bounds(lower, upper) {
        Some((lo, hi)) => {
            lemma_interval_len(lo, hi);
        },
        None => {},
    }
    lemma_set_intersect_union_lens(before, range_values(lower, upper));
}

/// Set objects represent a mathematical set of integer values.
///
/// Sets are used to describe certain sets of characters or glyphs, or other integer values.
#[derive(Debug, Hash)]
pub struct IntSet<T> {
    spans: Vec<(u32, u32)>,
    marker: PhantomData<T>,
}

/// Set over unicode code points.
pub type CharSet = IntSet<char>;

/// Set over [`u32`]s, except [`u32::MAX`]. Commonly used to represent sets of glyph IDs.
pub type U32Set = IntSet<u32>;

/// Set over [`Tag`]s.
pub type TagSet = IntSet<Tag>;

impl<T> View for IntSet<T> {
    type V = Set<u32>;

    /// The raw values that the set holds.
    closed spec fn view(&self) -> Set<u32> {
        members(self.spans@)
    }
}

impl<T> IntSet<T> {
    #[verifier::type_invariant]
    spec fn inv(self) -> bool {
        well_formed(self.spans@)
    }

    /// Creates a new, initially empty set.
    pub fn new() -> (r: Result<Self, AllocationError>)
        ensures
            r is Ok,
            r->Ok_0@ == Set::<u32>::empty(),
    {
        let set = IntSet { spans: Vec::new(), marker: PhantomData };
        proof {
            lemma_covers_empty(set.spans@);
            assert(set@ =~= Set::<u32>::empty());
        }
        Ok(set)
    }

    /// Tests whether a set is empty (contains no elements).
    ///
    /// A set is always finite and never holds [`SET_VALUE_INVALID`].
    pub fn is_empty(&self) -> (r: bool)
        ensures
            r == (self@ == Set::<u32>::empty()),
            self@.finite(),
            !self@.contains(SET_VALUE_INVALID),
    {
        proof {
            use_type_invariant(self);
            lemma_members_len(self.spans@);
            if self.spans@.len() == 0 {
                lemma_covers_empty(self.spans@);
                assert(self@ =~= Set::<u32>::empty());
            } else {
                assert(in_span(self.spans@[0], self.spans@[0].0));
                assert(self@.contains(self.spans@[0].0));
            }
            if covers(self.spans@, SET_VALUE_INVALID) {
                let i = choose|i: int|
                    0 <= i < self.spans@.len() && in_span(
                        #[trigger] self.spans@[i],
                        SET_VALUE_INVALID,
                    );
            }
        }
        self.spans.len() == 0
    }

    /// Returns the number of elements in the set.
    ///
    /// Note that this returns the number of elements in the underlying raw set over [`u32`],
    /// *not* the number of elements that can be represented as `T`.
    pub fn len(&self) -> (n: usize)
        ensures
            self@.finite(),
            n == self@.len(),
            n <= u32::MAX,
    {
        proof {
            use_type_invariant(self);
            lemma_members_len(self.spans@);
        }
        span_len(&self.spans)
    }

    /// Clears out the contents of a set.
    pub fn clear(&mut self)
        ensures
            final(self)@ == Set::<u32>::empty(),
    {
        self.spans = Vec::new();
        proof {
            lemma_covers_empty(self.spans@);
            assert(self@ =~= Set::<u32>::empty());
        }
    }

    /// Makes the set hold every value that a set can hold.
    pub fn fill(&mut self)
        ensures
            final(self)@ == everything(),
    {
        let mut spans: Vec<(u32, u32)> = Vec::new();
        spans.push((0, SET_VALUE_INVALID - 1));
        proof {
            assert forall|v: u32| members(spans@).contains(v) <==> everything().contains(v) by {
                if v < SET_VALUE_INVALID {
                    assert(in_span(spans@[0], v));
                }
                if covers(spans@, v) {
                    let i = choose|i: int| 0 <= i < spans@.len() && in_span(#[trigger] spans@[i], v);
                }
            }
            assert(members(spans@) =~= everything());
        }
        self.spans = spans;
    }

    /// Tests whether `self` contains `other` set.
    pub fn contains_set(&self, other: &Self) -> (r: bool)
        ensures
            r == other@.subset_of(self@),
    {
        proof {
            use_type_invariant(self);
            use_type_invariant(other);
        }
        span_subset(&other.spans, &self.spans)
    }
}

/// A copy of a list of spans.
fn copy_spans(s: &Vec<(u32, u32)>) -> (out: Vec<(u32, u32)>)
    ensures
        out@ == s@,
{
    let mut out: Vec<(u32, u32)> = Vec::new();
    let mut i: usize = 0;
    while i < s.len()
        invariant
            i <= s.len(),
            out@ == s@.take(i as int),
        decreases s.len() - i,
    {
        out.push(s[i]);
        i += 1;
        proof {
            assert(out@ =~= s@.take(i as int));
        }
    }
    proof {
        assert(s@.take(s.len() as int) =~= s@);
    }
    out
}

impl<T> IntSet<T> {
    /// Makes the contents of `self` equal to the contents of `other`.
    pub fn copy_from(&mut self, other: &Self)
        ensures
            final(self)@ == other@,
    {
        proof {
            use_type_invariant(other);
        }
        self.spans = copy_spans(&other.spans);
    }

    /// Constructs a copy of the set that shares nothing with `self`.
    pub fn clone_static(&self) -> (r: IntSet<T>)
        ensures
            r@ == self@,
    {
        proof {
            use_type_invariant(self);
        }
        IntSet { spans: copy_spans(&self.spans), marker: PhantomData }
    }

    /// Converts the set into its raw form: the ascending list of the inclusive spans of
    /// values that it holds.
    pub fn into_raw(self) -> (r: Vec<(u32, u32)>)
        ensures
            well_formed(r@),
            members(r@) == self@,
    {
        proof {
            use_type_invariant(&self);
        }
        self.spans
    }

    /// Exposes the raw form of the set without giving it away.
    pub fn as_raw(&self) -> (r: &Vec<(u32, u32)>)
        ensures
            well_formed(r@),
            members(r@) == self@,
    {
        proof {
            use_type_invariant(self);
        }
        &self.spans
    }

    /// Constructs a set from its raw form.
    ///
    /// The list must be one that [`Self::into_raw`] or [`Self::as_raw`] can give: ascending
    /// spans that neither overlap nor touch, all below [`SET_VALUE_INVALID`].
    pub fn from_raw(spans: Vec<(u32, u32)>) -> (r: Self)
        requires
            well_formed(spans@),
        ensures
            r@ == members(spans@),
    {
        IntSet { spans, marker: PhantomData }
    }
}

impl<T> IntSet<T> {
    /// Tests whether a raw value belongs to set.
    pub fn contains_raw(&self, value: u32) -> (r: bool)
        ensures
            r == self@.contains(value),
    {
        span_contains(&self.spans, value)
    }
}

impl<T: Element> IntSet<T> {
    /// Tests whether a value belongs to set.
    pub fn contains(&self, value: T) -> (r: bool)
        ensures
            r == self@.contains(value.raw()),
    {
        span_contains(&self.spans, value.into_raw())
    }

    /// Inserts a value to set.
    ///
    /// The value must not be [`SET_VALUE_INVALID`].
    pub fn insert(&mut self, value: T)
        requires
            value.raw() != SET_VALUE_INVALID,
        ensures
            final(self)@ == old(self)@.insert(value.raw()),
    {
        proof {
            use_type_invariant(&*self);
        }
        let v = value.into_raw();
        let spans = span_insert(&self.spans, v, v);
        proof {
            assert(members(spans@) =~= self@.insert(v));
        }
        self.spans = spans;
    }

    /// Removes a value from set.
    pub fn remove(&mut self, value: T)
        ensures
            final(self)@ == old(self)@.remove(value.raw()),
    {
        proof {
            use_type_invariant(&*self);
        }
        let v = value.into_raw();
        let spans = span_remove(&self.spans, v, v);
        proof {
            assert(members(spans@) =~= self@.remove(v));
        }
        self.spans = spans;
    }

    /// Converts a range to inclusive bounds.
    ///
    /// Gives nothing for a range that is empty or inverted. A range without an upper bound
    /// ends at the last value that `T` can stand for.
    pub fn range_to_bounds(lower: Bound<T>, upper: Bound<T>) -> (r: Option<(u32, u32)>)
        requires
            !names_invalid(lower, upper),
        ensures
            r == closed_bounds(lower, upper),
            r matches Some((lo, hi)) ==> lo <= hi < SET_VALUE_INVALID,
    {
        let lo: u32 = match lower {
            Bound::Included(x) => x.into_raw(),
            Bound::Excluded(x) => {
                let b = x.into_raw();
                if b == u32::MAX {
                    return None;
                } else {
                    b + 1
                }
            },
            Bound::Unbounded => 0,
        };
        let hi: u32 = match upper {
            Bound::Included(x) => x.into_raw(),
            Bound::Excluded(x) => {
                let b = x.into_raw();
                if b == 0 {
                    return None;
                } else {
                    b - 1
                }
            },
            Bound::Unbounded => T::unbounded_end(),
        };
        if hi < lo {
            return None;
        }
        Some((lo, hi))
    }

    /// Inserts a range of values to set.
    ///
    /// The range must not name [`SET_VALUE_INVALID`] as its included upper end. An empty or
    /// inverted range changes nothing.
    pub fn insert_range(&mut self, lower: Bound<T>, upper: Bound<T>)
        requires
            !names_invalid(lower, upper),
        ensures
            final(self)@ == old(self)@ + range_values(lower, upper),
    {
        proof {
            use_type_invariant(&*self);
        }
        match Self::range_to_bounds(lower, upper) {
            Some((lo, hi)) => {
                let spans = span_insert(&self.spans, lo, hi);
                proof {
                    assert(members(spans@) =~= self@ + interval(lo, hi));
                }
                self.spans = spans;
            },
            None => {
                proof {
                    assert(self@ =~= self@ + Set::<u32>::empty());
                }
            },
        }
    }

    /// Removes a range of values from set.
    ///
    /// The range must not name [`SET_VALUE_INVALID`] as its included upper end. An empty or
    /// inverted range changes nothing.
    pub fn remove_range(&mut self, lower: Bound<T>, upper: Bound<T>)
        requires
            !names_invalid(lower, upper),
        ensures
            final(self)@ == old(self)@.difference(range_values(lower, upper)),
            forall|v: u32|
                range_values(lower, upper).contains(v) ==> !(#[trigger] final(self)@.contains(v)),
            forall|v: u32|
                !range_values(lower, upper).contains(v) ==> (#[trigger] final(self)@.contains(v)
                    == old(self)@.contains(v)),
    {
        proof {
            use_type_invariant(&*self);
        }
        match Self::range_to_bounds(lower, upper) {
            Some((lo, hi)) => {
                let spans = span_remove(&self.spans, lo, hi);
                proof {
                    assert(members(spans@) =~= self@.difference(interval(lo, hi)));
                }
                self.spans = spans;
            },
            None => {
                proof {
                    assert(self@ =~= self@.difference(Set::<u32>::empty()));
                }
            },
        }
    }
}

impl<T> Clone for IntSet<T> {
    fn clone(&self) -> (r: Self)
        ensures
            r@ == self@,
    {
        self.clone_static()
    }
}

impl<T> PartialEq for IntSet<T> {
    fn eq(&self, other: &Self) -> (r: bool) {
        proof {
            use_type_invariant(self);
            use_type_invariant(other);
        }
        let r = span_subset(&self.spans, &other.spans) && span_subset(&other.spans, &self.spans);
        proof {
            if r {
                assert(self@ =~= other@);
            }
        }
        r
    }
}

impl<T> PartialEqSpecImpl for IntSet<T> {
    open spec fn obeys_eq_spec() -> bool {
        true
    }

    open spec fn eq_spec(&self, other: &Self) -> bool {
        self@ == other@
    }
}

impl<T> Eq for IntSet<T> {

}

impl<T> IntSet<T> {
    /// The least value of the set after `cursor`, or the least of all when `cursor` is
    /// [`SET_VALUE_INVALID`].
    pub fn next_value(&self, cursor: u32) -> (r: Option<u32>)
        ensures
            match r {
                Some(m) => self@.contains(m) && floor_of(cursor) < m && forall|v: u32|
                    #[trigger] self@.contains(v) && floor_of(cursor) < v ==> m <= v,
                None => forall|v: u32| #[trigger] self@.contains(v) ==> v <= floor_of(cursor),
            },
    {
        proof {
            use_type_invariant(self);
        }
        let r = span_next(&self.spans, cursor);
        proof {
            match r {
                Some(m) => {
                    assert forall|v: u32| #[trigger]
                        self@.contains(v) && floor_of(cursor) < v implies m <= v by {
                        assert(covers(self.spans@, v));
                    }
                },
                None => {
                    assert forall|v: u32| #[trigger] self@.contains(v) implies v <= floor_of(
                        cursor,
                    ) by {
                        assert(covers(self.spans@, v));
                    }
                },
            }
        }
        r
    }

    /// The greatest value of the set before `cursor`, or the greatest of all when `cursor` is
    /// [`SET_VALUE_INVALID`].
    pub fn previous_value(&self, cursor: u32) -> (r: Option<u32>)
        ensures
            match r {
                Some(m) => self@.contains(m) && m < cursor && forall|v: u32|
                    #[trigger] self@.contains(v) && v < cursor ==> v <= m,
                None => forall|v: u32| #[trigger] self@.contains(v) ==> v >= cursor,
            },
    {
        proof {
            use_type_invariant(self);
        }
        let r = span_previous(&self.spans, cursor);
        proof {
            match r {
                Some(m) => {
                    assert forall|v: u32| #[trigger] self@.contains(v) && v < cursor implies v
                        <= m by {
                        assert(covers(self.spans@, v));
                    }
                },
                None => {
                    assert forall|v: u32| #[trigger] self@.contains(v) implies v >= cursor by {
                        assert(covers(self.spans@, v));
                    }
                },
            }
        }
        r
    }
}

/// Cursor pair over the raw values of a set: one cursor walks up from the least value, the
/// other down from the greatest, and what lies strictly between them is still to come.
pub struct InnerSetIter<'s, T>(&'s IntSet<T>, u32, u32);

impl<'s, T> InnerSetIter<'s, T> {
    /// The set that is walked.
    pub closed spec fn source(&self) -> Set<u32> {
        self.0@
    }

    /// The value that the forward cursor stands on; `-1` before the first step.
    pub closed spec fn front(&self) -> int {
        floor_of(self.1)
    }

    /// The value that the backward cursor stands on; `u32::MAX` before the first step.
    pub closed spec fn back(&self) -> int {
        self.2 as int
    }

    /// The values that are still to come, from either end.
    pub open spec fn remaining(&self) -> Set<u32> {
        Set::new(|v: u32| self.source().contains(v) && self.front() < v < self.back())
    }

    /// Starts a walk over `set`, with everything still to come.
    pub fn new(set: &'s IntSet<T>) -> (r: Self)
        ensures
            r.source() == set@,
            r.remaining() == set@,
    {
        let r = InnerSetIter(set, SET_VALUE_INVALID, SET_VALUE_INVALID);
        let _ = set.is_empty();
        proof {
            assert(r.remaining() =~= set@);
        }
        r
    }

    /// Ends the walk: nothing is to come any more, from either end.
    pub fn mark_ended(&mut self)
        ensures
            final(self).source() == old(self).source(),
            final(self).remaining() == Set::<u32>::empty(),
    {
        self.1 = SET_VALUE_INVALID - 1;
        self.2 = 0;
        proof {
            assert(self.remaining() =~= Set::<u32>::empty());
        }
    }

    /// Steps forward: gives the least value still to come and takes it out, or ends the walk.
    pub fn next(&mut self) -> (r: Option<u32>)
        ensures
            final(self).source() == old(self).source(),
            match r {
                Some(m) => {
                    &&& old(self).remaining().contains(m)
                    &&& forall|v: u32| #[trigger] old(self).remaining().contains(v) ==> m <= v
                    &&& final(self).remaining() == old(self).remaining().remove(m)
                    &&& final(self).front() == m
                    &&& final(self).back() == old(self).back()
                },
                None => {
                    &&& old(self).remaining() == Set::<u32>::empty()
                    &&& final(self).remaining() == Set::<u32>::empty()
                },
            },
    {
        let _ = self.0.is_empty();
        if self.1 == SET_VALUE_INVALID - 1 {
            proof {
                assert(self.remaining() =~= Set::<u32>::empty());
            }
            return None;
        }
        let ghost before = *self;
        match self.0.next_value(self.1) {
            Some(m) => {
                if m >= self.2 {
                    proof {
                        assert forall|v: u32| !before.remaining().contains(v) by {
                            if before.source().contains(v) && before.front() < v {
                                assert(m <= v);
                            }
                        }
                        assert(before.remaining() =~= Set::<u32>::empty());
                    }
                    self.mark_ended();
                    None
                } else {
                    self.1 = m;
                    proof {
                        assert forall|v: u32| #[trigger]
                            before.remaining().contains(v) implies m <= v by {}
                        assert forall|v: u32|
                            self.remaining().contains(v) <==> before.remaining().remove(
                                m,
                            ).contains(v) by {
                            if before.source().contains(v) && before.front() < v {
                                assert(m <= v);
                            }
                        }
                        assert(self.remaining() =~= before.remaining().remove(m));
                    }
                    Some(m)
                }
            },
            None => {
                proof {
                    assert(before.remaining() =~= Set::<u32>::empty());
                }
                self.mark_ended();
                None
            },
        }
    }

    /// Steps backward: gives the greatest value still to come and takes it out, or ends the
    /// walk.
    pub fn next_back(&mut self) -> (r: Option<u32>)
        ensures
            final(self).source() == old(self).source(),
            match r {
                Some(m) => {
                    &&& old(self).remaining().contains(m)
                    &&& forall|v: u32| #[trigger] old(self).remaining().contains(v) ==> v <= m
                    &&& final(self).remaining() == old(self).remaining().remove(m)
                    &&& final(self).back() == m
                    &&& final(self).front() == old(self).front()
                },
                None => {
                    &&& old(self).remaining() == Set::<u32>::empty()
                    &&& final(self).remaining() == Set::<u32>::empty()
                },
            },
    {
        let _ = self.0.is_empty();
        if self.2 == 0 {
            proof {
                assert(self.remaining() =~= Set::<u32>::empty());
            }
            return None;
        }
        let ghost before = *self;
        match self.0.previous_value(self.2) {
            Some(m) => {
                if self.1 != SET_VALUE_INVALID && self.1 >= m {
                    proof {
                        assert forall|v: u32| !before.remaining().contains(v) by {
                            if before.source().contains(v) && v < before.back() {
                                assert(v <= m);
                            }
                        }
                        assert(before.remaining() =~= Set::<u32>::empty());
                    }
                    self.mark_ended();
                    None
                } else {
                    self.2 = m;
                    proof {
                        assert forall|v: u32| #[trigger]
                            before.remaining().contains(v) implies v <= m by {}
                        assert forall|v: u32|
                            self.remaining().contains(v) <==> before.remaining().remove(
                                m,
                            ).contains(v) by {
                            if before.source().contains(v) && v < before.back() {
                                assert(v <= m);
                            }
                        }
                        assert(self.remaining() =~= before.remaining().remove(m));
                    }
                    Some(m)
                }
            },
            None => {
                proof {
                    assert(before.remaining() =~= Set::<u32>::empty());
                }
                self.mark_ended();
                None
            },
        }
    }
}

/// Iterator over [`IntSet`].
///
/// Use [`IntSet::iter`] to construct a [`SetIter`]. It walks the raw values in ascending
/// order from the front and in descending order from the back, and passes over raw values
/// that stand for no element of `T`.
pub struct SetIter<'s, T>(InnerSetIter<'s, T>);

impl<'s, T: Element> SetIter<'s, T> {
    /// The raw values that are still to come, from either end.
    pub closed spec fn remaining(&self) -> Set<u32> {
        self.0.remaining()
    }

    /// Gives the element of the least raw value still to come that stands for one, and takes
    /// that value and all below it out. Gives nothing, for good, when no such value is left.
    pub fn next(&mut self) -> (r: Option<T>)
        ensures
            match r {
                Some(x) => {
                    &&& old(self).remaining().contains(x.raw())
                    &&& T::typed(x.raw()) == Some(x)
                    &&& forall|v: u32|
                        old(self).remaining().contains(v) && v < x.raw() ==> (#[trigger] T::typed(
                            v,
                        )) is None
                    &&& final(self).remaining() == old(self).remaining().filter(
                        |v: u32| v > x.raw(),
                    )
                },
                None => {
                    &&& forall|v: u32|
                        old(self).remaining().contains(v) ==> (#[trigger] T::typed(v)) is None
                    &&& final(self).remaining() == Set::<u32>::empty()
                },
            },
    {
        loop
            invariant
                self.0.source() == old(self).0.source(),
                self.0.back() == old(self).0.back(),
                old(self).0.front() <= self.0.front(),
                forall|v: u32|
                    old(self).remaining().contains(v) && v <= self.0.front() ==> (
                    #[trigger] T::typed(v)) is None,
            decreases u32::MAX - self.0.front(),
        {
            let ghost before = self.0;
            match self.0.next() {
                None => {
                    proof {
                        assert forall|v: u32| old(self).remaining().contains(v) implies (
                        #[trigger] T::typed(v)) is None by {
                            if v > before.front() {
                                assert(before.remaining().contains(v));
                            }
                        }
                    }
                    return None;
                },
                Some(m) => {
                    proof {
                        assert(before.remaining().contains(m));
                    }
                    match T::try_from_raw(m) {
                        Some(x) => {
                            proof {
                                T::lemma_raw_typed(m);
                                assert forall|v: u32|
                                    old(self).remaining().contains(v) && v < x.raw() implies (
                                #[trigger] T::typed(v)) is None by {
                                    if v > before.front() {
                                        assert(before.remaining().contains(v));
                                    }
                                }
                                assert(self.remaining() =~= old(self).remaining().filter(
                                    |v: u32| v > x.raw(),
                                ));
                            }
                            return Some(x);
                        },
                        None => {
                            proof {
                                assert forall|v: u32|
                                    old(self).remaining().contains(v) && v
                                        <= self.0.front() implies (#[trigger] T::typed(
                                    v,
                                )) is None by {
                                    if v > before.front() {
                                        assert(before.remaining().contains(v));
                                    }
                                }
                            }
                        },
                    }
                },
            }
        }
    }
}

impl<'s, T: Element> SetIter<'s, T> {
    /// Gives the element of the greatest raw value still to come that stands for one, and
    /// takes that value and all above it out. Gives nothing, for good, when no such value is
    /// left.
    pub fn next_back(&mut self) -> (r: Option<T>)
        ensures
            match r {
                Some(x) => {
                    &&& old(self).remaining().contains(x.raw())
                    &&& T::typed(x.raw()) == Some(x)
                    &&& forall|v: u32|
                        old(self).remaining().contains(v) && v > x.raw() ==> (#[trigger] T::typed(
                            v,
                        )) is None
                    &&& final(self).remaining() == old(self).remaining().filter(
                        |v: u32| v < x.raw(),
                    )
                },
                None => {
                    &&& forall|v: u32|
                        old(self).remaining().contains(v) ==> (#[trigger] T::typed(v)) is None
                    &&& final(self).remaining() == Set::<u32>::empty()
                },
            },
    {
        loop
            invariant
                self.0.source() == old(self).0.source(),
                self.0.front() == old(self).0.front(),
                0 <= self.0.back() <= old(self).0.back(),
                forall|v: u32|
                    old(self).remaining().contains(v) && v >= self.0.back() ==> (
                    #[trigger] T::typed(v)) is None,
            decreases self.0.back(),
        {
            let ghost before = self.0;
            match self.0.next_back() {
                None => {
                    proof {
                        assert forall|v: u32| old(self).remaining().contains(v) implies (
                        #[trigger] T::typed(v)) is None by {
                            if v < before.back() {
                                assert(before.remaining().contains(v));
                            }
                        }
                    }
                    return None;
                },
                Some(m) => {
                    proof {
                        assert(before.remaining().contains(m));
                    }
                    match T::try_from_raw(m) {
                        Some(x) => {
                            proof {
                                T::lemma_raw_typed(m);
                                assert forall|v: u32|
                                    old(self).remaining().contains(v) && v > x.raw() implies (
                                #[trigger] T::typed(v)) is None by {
                                    if v < before.back() {
                                        assert(before.remaining().contains(v));
                                    }
                                }
                                assert(self.remaining() =~= old(self).remaining().filter(
                                    |v: u32| v < x.raw(),
                                ));
                            }
                            return Some(x);
                        },
                        None => {
                            proof {
                                assert forall|v: u32|
                                    old(self).remaining().contains(v) && v
                                        >= self.0.back() implies (#[trigger] T::typed(
                                    v,
                                )) is None by {
                                    if v < before.back() {
                                        assert(before.remaining().contains(v));
                                    }
                                }
                            }
                        },
                    }
                },
            }
        }
    }
}

impl<T: Element> IntSet<T> {
    /// Constructs an iterator over the set, with every value of the set still to come.
    pub fn iter(&self) -> (r: SetIter<'_, T>)
        ensures
            r.remaining() == self@,
    {
        SetIter(InnerSetIter::new(self))
    }
}

/// Whether `values` lists the members of `set` in ascending order, each once.
pub open spec fn lists_ascending(values: Seq<u32>, set: Set<u32>) -> bool {
    &&& forall|i: int, j: int| 0 <= i < j < values.len() ==> values[i] < values[j]
    &&& forall|v: u32| set.contains(v) <==> values.contains(v)
}

/// While the members are written out: `values` lists in ascending order the members up to
/// `floor`.
pub open spec fn listed_upto(values: Seq<u32>, set: Set<u32>, floor: int) -> bool {
    &&& forall|i: int, j: int| 0 <= i < j < values.len() ==> values[i] < values[j]
    &&& forall|i: int| 0 <= i < values.len() ==> (#[trigger] values[i]) <= floor
    &&& forall|v: u32| #[trigger] values.contains(v) <==> (set.contains(v) && v <= floor)
}

impl IntSet<u32> {
    /// The set as text for a reader: its members in ascending order, in decimal, separated by
    /// a comma and a space, within braces.
    pub fn debug_string(&self) -> (r: String)
        ensures
            exists|values: Seq<u32>| #[trigger]
                lists_ascending(values, self@) && r@ == seq!['{'] + listing(values) + seq!['}'],
    {
        let _ = self.is_empty();
        let mut out = String::new();
        push_char(&mut out, '{');
        let ghost mut values: Seq<u32> = Seq::empty();
        let mut cursor: u32 = SET_VALUE_INVALID;
        let mut first: bool = true;
        loop
            invariant
                !self@.contains(SET_VALUE_INVALID),
                first == (values.len() == 0),
                first ==> cursor == SET_VALUE_INVALID,
                listed_upto(values, self@, floor_of(cursor)),
                out@ == seq!['{'] + listing(values),
            decreases u32::MAX - floor_of(cursor),
        {
            match self.next_value(cursor) {
                Some(m) => {
                    let ghost before = values;
                    if !first {
                        push_char(&mut out, ',');
                        push_char(&mut out, ' ');
                    }
                    push_decimal(&mut out, m);
                    proof {
                        values = values.push(m);
                        assert(values.drop_last() =~= before);
                        assert(out@ =~= seq!['{'] + listing(values));
                        assert forall|v: u32| #[trigger]
                            values.contains(v) <==> (self@.contains(v) && v <= m) by {
                            if before.contains(v) {
                                let i = choose|i: int| 0 <= i < before.len() && before[i] == v;
                                assert(values[i] == v);
                            }
                            if v == m {
                                assert(values[before.len() as int] == m);
                            }
                            if values.contains(v) {
                                let i = choose|i: int| 0 <= i < values.len() && values[i] == v;
                                if i < before.len() {
                                    assert(before[i] == v);
                                    assert(before.contains(v));
                                }
                            }
                            if self@.contains(v) && v <= m && v != m {
                                if floor_of(cursor) < v {
                                    assert(m <= v);
                                }
                                assert(before.contains(v));
                            }
                        }
                    }
                    cursor = m;
                    first = false;
                },
                None => {
                    push_char(&mut out, '}');
                    proof {
                        assert forall|v: u32| self@.contains(v) <==> values.contains(v) by {
                            if self@.contains(v) {
                                assert(v <= floor_of(cursor));
                            }
                        }
                        assert(lists_ascending(values, self@));
                        assert(out@ =~= seq!['{'] + listing(values) + seq!['}']);
                    }
                    return out;
                },
            }
        }
    }
}

} // verus!
