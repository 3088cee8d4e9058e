use hb_subset::set::Bound::{Excluded, Included, Unbounded};
use hb_subset::{CharSet, Element, IntSet, SetIter, TagSet, Tag, U32Set};

fn collect<T: Element>(set: &IntSet<T>) -> Vec<T> {
    let mut iter = set.iter();
    let mut out = Vec::new();
    while let Some(value) = iter.next() {
        out.push(value);
    }
    out
}

fn collect_rev<T: Element>(set: &IntSet<T>) -> Vec<T> {
    let mut iter = set.iter();
    let mut out = Vec::new();
    while let Some(value) = iter.next_back() {
        out.push(value);
    }
    out
}

fn assert_fused_forward(mut iter: SetIter<'_, u32>) {
    while let Some(_) = iter.next() {}
    for _ in 0..10 {
        assert!(iter.next().is_none());
    }
}

fn assert_fused_backward(mut iter: SetIter<'_, u32>) {
    while let Some(_) = iter.next_back() {}
    for _ in 0..10 {
        assert!(iter.next_back().is_none());
    }
}

#[test]
fn set_is_empty_works() {
    let mut set = U32Set::new().unwrap();
    assert!(set.is_empty());
    assert!(set.is_empty());
    set.insert(10);
    assert!(!set.is_empty());
    set.insert(20);
    assert!(!set.is_empty());
    set.remove(10);
    assert!(!set.is_empty());
    set.remove(20);
    assert!(set.is_empty());
}

#[test]
fn set_len_works() {
    let mut set = U32Set::new().unwrap();
    assert_eq!(set.len(), 0);
    set.insert(10);
    assert_eq!(set.len(), 1);
    set.insert_range(Included(5), Excluded(15));
    assert_eq!(set.len(), 10);
    set.remove(13);
    assert_eq!(set.len(), 9);
}

#[test]
fn clear_empties_set() {
    let mut set = U32Set::new().unwrap();
    set.insert_range(Included(123), Excluded(456));
    assert!(!set.is_empty());
    assert_eq!(set.len(), 333);
    set.clear();
    assert!(set.is_empty());
    assert_eq!(set.len(), 0);
}

#[test]
fn does_not_contain_u32_max() {
    let mut set = U32Set::new().unwrap();
    set.insert_range(Unbounded, Unbounded);
    assert!(!set.contains(u32::MAX));
}

#[test]
fn can_contain_max_value() {
    let mut set = U32Set::new().unwrap();
    set.insert(u32::MAX - 1);
    assert!(set.contains(u32::MAX - 1));
    assert!(!set.is_empty());
    assert_eq!(set.len(), 1);
}

#[test]
fn copy_from_works() {
    let mut a = U32Set::new().unwrap();
    a.insert(5);
    let mut b = U32Set::new().unwrap();
    b.insert(10);
    assert_eq!(collect(&a), [5]);
    assert_eq!(collect(&b), [10]);
    a.copy_from(&b);
    assert_eq!(collect(&a), [10]);
    b.insert(1);
    assert_eq!(collect(&a), [10]);
    a.remove(10);
    assert_eq!(collect(&b), [1, 10]);
}

#[test]
fn contains_its_subset() {
    let mut a = U32Set::new().unwrap();
    a.insert_range(Included(5), Included(15));
    a.insert_range(Included(55), Included(65));
    assert!(a.contains_set(&a));
    let mut b = U32Set::new().unwrap();
    b.insert_range(Included(7), Included(14));
    b.insert(60);
    assert!(b.contains_set(&b));
    assert!(a.contains_set(&b));
    assert!(!b.contains_set(&a));
    b.insert(65);
    assert!(a.contains_set(&b));
    b.insert(66);
    assert!(!a.contains_set(&b));
    assert!(!b.contains_set(&a));
}

#[test]
fn contains_inserted_values() {
    let mut set = U32Set::new().unwrap();
    set.insert(1);
    assert!(!set.contains(3));
    set.insert(1);
    assert!(!set.contains(3));
    set.insert(3);
    assert!(set.contains(3));
    set.remove(1);
    assert!(set.contains(3));
    set.remove(3);
    assert!(!set.contains(3));
}

#[test]
fn range_insertions_and_deletions_work() {
    let mut set = U32Set::new().unwrap();
    set.insert_range(Included(0), Excluded(100));
    assert_eq!(set.len(), 100);
    set.remove_range(Included(21), Included(30));
    assert_eq!(set.len(), 90);
    set.remove_range(Included(90), Excluded(200));
    assert_eq!(set.len(), 80);
}

#[test]
fn set_convert_into_raw_and_back() {
    let set = U32Set::new().unwrap();
    let raw = set.into_raw();
    let set = U32Set::from_raw(raw);
    drop(set);
}

#[test]
fn equal_works() {
    let mut a = U32Set::new().unwrap();
    for i in 0..10 {
        a.insert(i);
    }
    assert_eq!(a, a);
    let mut b = U32Set::new().unwrap();
    assert_ne!(a, b);
    b.insert_range(Included(0), Excluded(10));
    assert_eq!(a, b);
}

#[test]
fn cloned_set_does_not_modify_original() {
    let mut a = U32Set::new().unwrap();
    a.insert(3);
    a.insert(5);
    let mut b = a.clone();
    assert_eq!(a.len(), 2);
    assert_eq!(b.len(), 2);
    a.insert(10);
    assert_eq!(a.len(), 3);
    assert_eq!(b.len(), 2);
    b.remove(3);
    assert_eq!(a.len(), 3);
    assert_eq!(b.len(), 1);
}

#[test]
fn set_iter_works() {
    let mut set = U32Set::new().unwrap();
    assert!(set.iter().next().is_none());
    set.insert(0);
    assert_eq!(collect(&set), [0]);
    set.insert(0);
    assert_eq!(collect(&set), [0]);
    set.insert(10);
    assert_eq!(collect(&set), [0, 10]);
    set.insert_range(Included(6), Excluded(12));
    assert_eq!(collect(&set), [0, 6, 7, 8, 9, 10, 11]);
    set.remove_range(Included(8), Included(10));
    assert_eq!(collect(&set), [0, 6, 7, 11]);
}

#[test]
fn iter_near_max_works() {
    let mut set = U32Set::new().unwrap();
    set.insert(u32::MAX - 3);
    set.insert(u32::MAX - 2);
    assert_eq!(collect(&set), [u32::MAX - 3, u32::MAX - 2]);
    set.insert(u32::MAX - 1);
    assert_eq!(collect(&set), [u32::MAX - 3, u32::MAX - 2, u32::MAX - 1]);
    set.clear();
    assert!(set.is_empty());
    set.insert_range(Excluded(u32::MAX - 3), Unbounded);
    assert_eq!(collect(&set), [u32::MAX - 2, u32::MAX - 1]);
}

#[test]
fn set_iter_of_invalid_codepoints_works() {
    let mut set = CharSet::new().unwrap();
    set.insert_range(Included('\u{D7FF}'), Excluded('\u{E001}')); // Add all surrogate pairs, and then some
    assert_eq!(collect(&set), ['\u{D7FF}', '\u{E000}']);

    let mut set = CharSet::new().unwrap();
    set.insert_range(Included('\u{10FFFF}'), Unbounded);
    assert_eq!(collect(&set), ['\u{10FFFF}']);
}

#[test]
fn set_iter_is_fused() {
    let mut set = U32Set::new().unwrap();
    assert_fused_forward(set.iter());
    assert_fused_backward(set.iter());
    set.insert(0);
    assert_fused_forward(set.iter());
    assert_fused_backward(set.iter());
    set.insert(1);
    assert_fused_forward(set.iter());
    assert_fused_backward(set.iter());
    set.insert(u32::MAX - 3);
    assert_fused_forward(set.iter());
    assert_fused_backward(set.iter());
    set.insert(u32::MAX - 2);
    assert_fused_forward(set.iter());
    assert_fused_backward(set.iter());
    set.insert(u32::MAX - 1);
    assert_fused_forward(set.iter());
    assert_fused_backward(set.iter());

    let mut iter = set.iter();
    assert_eq!(iter.next_back(), Some(u32::MAX - 1));
    assert_fused_forward(iter);

    let mut iter = set.iter();
    assert_eq!(iter.next(), Some(0));
    assert_fused_backward(iter);
}

#[test]
fn iter_next_back_works() {
    let mut set = U32Set::new().unwrap();
    assert!(set.iter().next().is_none());
    set.insert(0);
    set.insert_range(Included(6), Excluded(12));
    assert_eq!(collect_rev(&set), [11, 10, 9, 8, 7, 6, 0]);
    set.remove_range(Included(8), Included(10));
    assert_eq!(collect_rev(&set), [11, 7, 6, 0]);

    let mut iter = set.iter();
    assert_eq!(iter.next(), Some(0));
    assert_eq!(iter.next_back(), Some(11));
    assert_eq!(iter.next_back(), Some(7));
    assert_eq!(iter.next(), Some(6));
    assert_eq!(iter.next(), None);
    assert_eq!(iter.next_back(), None);

    let mut iter = set.iter();
    assert_eq!(iter.next_back(), Some(11));
    assert_eq!(iter.next_back(), Some(7));
    assert_eq!(iter.next(), Some(0));
    assert_eq!(iter.next(), Some(6));
    assert_eq!(iter.next_back(), None);
    assert_eq!(iter.next(), None);

    let mut iter = set.iter();
    assert_eq!(iter.next_back(), Some(11));
    assert_eq!(iter.next_back(), Some(7));
    assert_eq!(iter.next(), Some(0));
    assert_eq!(iter.next_back(), Some(6));
    assert_eq!(iter.next_back(), None);
    assert_eq!(iter.next(), None);

    let mut iter = set.iter();
    assert_eq!(iter.next_back(), Some(11));
    assert_eq!(iter.next_back(), Some(7));
    assert_eq!(iter.next(), Some(0));
    assert_eq!(iter.next_back(), Some(6));
    assert_eq!(iter.next(), None);
    assert_eq!(iter.next_back(), None);
}

#[test]
fn surrogates_count_in_len_but_not_in_iteration() {
    let mut set = CharSet::new().unwrap();
    set.insert_range(Included('\u{D7FF}'), Excluded('\u{E000}'));
    assert_eq!(set.len(), 2049);
    assert_eq!(collect(&set), ['\u{D7FF}']);
    assert_eq!(collect_rev(&set), ['\u{D7FF}']);
}

#[test]
fn range_to_bounds_normalizes_every_form() {
    assert_eq!(U32Set::range_to_bounds(Included(3), Included(7)), Some((3, 7)));
    assert_eq!(U32Set::range_to_bounds(Included(3), Excluded(7)), Some((3, 6)));
    assert_eq!(U32Set::range_to_bounds(Excluded(3), Included(7)), Some((4, 7)));
    assert_eq!(U32Set::range_to_bounds(Unbounded, Unbounded), Some((0, u32::MAX - 1)));
    assert_eq!(U32Set::range_to_bounds(Unbounded, Excluded(u32::MAX)), Some((0, u32::MAX - 1)));
    assert_eq!(U32Set::range_to_bounds(Included(5), Included(5)), Some((5, 5)));
    assert_eq!(CharSet::range_to_bounds(Unbounded, Unbounded), Some((0, 0x10FFFF)));
    assert_eq!(CharSet::range_to_bounds(Included('a'), Unbounded), Some((0x61, 0x10FFFF)));
    assert_eq!(
        TagSet::range_to_bounds(Unbounded, Included(Tag::new(*b"cmap"))),
        Some((0, 0x636d6170))
    );
}

#[test]
fn empty_and_inverted_ranges_are_no_ops() {
    assert_eq!(U32Set::range_to_bounds(Unbounded, Excluded(0)), None);
    assert_eq!(U32Set::range_to_bounds(Excluded(u32::MAX), Unbounded), None);
    assert_eq!(U32Set::range_to_bounds(Excluded(u32::MAX), Included(u32::MAX)), None);
    assert_eq!(U32Set::range_to_bounds(Included(7), Included(3)), None);
    assert_eq!(U32Set::range_to_bounds(Included(7), Excluded(7)), None);
    let mut set = U32Set::new().unwrap();
    set.insert(4);
    set.insert_range(Unbounded, Excluded(0));
    set.insert_range(Included(9), Included(8));
    assert_eq!(collect(&set), [4]);
    set.remove_range(Included(9), Included(2));
    set.remove_range(Unbounded, Excluded(0));
    assert_eq!(collect(&set), [4]);
}

#[test]
fn insert_range_counts_only_new_members() {
    let mut set = U32Set::new().unwrap();
    set.insert(12);
    set.insert(14);
    set.insert(40);
    assert_eq!(set.len(), 3);
    set.insert_range(Included(10), Excluded(20));
    assert_eq!(set.len(), 3 + 10 - 2);
    set.remove_range(Included(15), Excluded(45));
    for v in 15..45 {
        assert!(!set.contains(v));
    }
    for v in 10..15 {
        assert!(set.contains(v));
    }
    assert!(!set.contains(9));
    assert!(!set.contains(45));
}

#[test]
fn ranges_merge_and_split() {
    let mut set = U32Set::new().unwrap();
    set.insert_range(Included(10), Included(20));
    set.insert_range(Included(30), Included(40));
    assert_eq!(set.as_raw(), &vec![(10, 20), (30, 40)]);
    set.insert_range(Included(21), Included(29));
    assert_eq!(set.as_raw(), &vec![(10, 40)]);
    set.remove(25);
    assert_eq!(set.as_raw(), &vec![(10, 24), (26, 40)]);
    set.insert(25);
    set.insert(9);
    set.insert(41);
    assert_eq!(set.clone().into_raw(), vec![(9, 41)]);
    set.remove_range(Unbounded, Unbounded);
    assert!(set.is_empty());
}

#[test]
fn fill_holds_all_but_the_invalid_value() {
    let mut set = U32Set::new().unwrap();
    set.insert(77);
    set.fill();
    assert_eq!(set.len(), u32::MAX as usize);
    assert!(set.contains(0));
    assert!(set.contains(u32::MAX - 1));
    assert!(!set.contains(u32::MAX));
    assert!(set.contains_raw(0xD800));
    set.remove(u32::MAX);
    assert_eq!(set.len(), u32::MAX as usize);
}

#[test]
fn cursors_step_over_gaps() {
    let mut set = U32Set::new().unwrap();
    set.insert_range(Included(5), Included(7));
    set.insert(20);
    assert_eq!(set.next_value(u32::MAX), Some(5));
    assert_eq!(set.next_value(5), Some(6));
    assert_eq!(set.next_value(7), Some(20));
    assert_eq!(set.next_value(20), None);
    assert_eq!(set.next_value(0), Some(5));
    assert_eq!(set.previous_value(u32::MAX), Some(20));
    assert_eq!(set.previous_value(20), Some(7));
    assert_eq!(set.previous_value(6), Some(5));
    assert_eq!(set.previous_value(5), None);
    assert_eq!(set.previous_value(0), None);
}

#[test]
fn tag_sets_hold_tags() {
    let mut set = TagSet::new().unwrap();
    set.insert(Tag::new(*b"cmap"));
    set.insert(Tag::new(*b"GSUB"));
    assert!(set.contains(Tag::new(*b"cmap")));
    assert!(!set.contains(Tag::new(*b"glyf")));
    assert_eq!(collect(&set), [Tag::new(*b"GSUB"), Tag::new(*b"cmap")]);
}

#[test]
fn debug_works() {
    let mut set = U32Set::new().unwrap();
    set.insert_range(Included(3), Included(5));
    set.insert(7);
    assert_eq!(set.debug_string(), "{3, 4, 5, 7}");
}

#[test]
fn listing_writes_decimal_numbers() {
    let mut set = U32Set::new().unwrap();
    assert_eq!(set.debug_string(), "{}");
    set.insert(0);
    assert_eq!(set.debug_string(), "{0}");
    set.insert(u32::MAX - 1);
    set.insert(10);
    set.insert(109);
    set.insert(9);
    assert_eq!(set.debug_string(), "{0, 9, 10, 109, 4294967294}");
    let mut text = String::new();
    hb_subset::text::push_decimal(&mut text, 1000);
    hb_subset::text::push_decimal(&mut text, 7);
    assert_eq!(text, "10007");
}
