use hb_subset::{IntMap, IntSet, U32Set};
use std::collections::BTreeSet;

fn set_of(values: &[u32]) -> U32Set {
    let mut set = IntSet::new().unwrap();
    for v in values {
        set.insert(*v);
    }
    set
}

fn assert_set_is_correct<T: Ord + std::fmt::Debug>(
    left: impl IntoIterator<Item = T>,
    right: impl IntoIterator<Item = T>,
) {
    let left: BTreeSet<T> = BTreeSet::from_iter(left);
    let right: BTreeSet<T> = BTreeSet::from_iter(right);
    assert_eq!(left, right);
}

fn pairs_u32(map: &IntMap<u32, u32>) -> BTreeSet<(u32, u32)> {
    let mut iter = map.iter();
    let mut out = BTreeSet::new();
    while let Some(pair) = iter.next() {
        out.insert(pair);
    }
    out
}

#[test]
fn map_is_empty_works() {
    let mut map = IntMap::<u32, u32>::new().unwrap();
    assert!(map.is_empty());
    map.insert(0, 0);
    assert!(!map.is_empty());
    map.insert(0, 10);
    assert!(!map.is_empty());
    map.remove(0);
    assert!(map.is_empty());
}

#[test]
fn map_len_works() {
    let mut map = IntMap::<u32, u32>::new().unwrap();
    assert_eq!(map.len(), 0);
    map.insert(0, 0);
    assert_eq!(map.len(), 1);
    map.insert(0, 10);
    assert_eq!(map.len(), 1);
    map.insert(1, 10);
    assert_eq!(map.len(), 2);
    map.remove(0);
    assert_eq!(map.len(), 1);
    map.remove(0);
    assert_eq!(map.len(), 1);
    map.remove(1);
    assert_eq!(map.len(), 0);
}

#[test]
fn clear_works() {
    let mut map = IntMap::<u32, u32>::from_iter(vec![(0, 1), (0, 2), (1, 3)]);
    assert_eq!(map.len(), 2);
    map.clear();
    assert!(map.is_empty());
    assert_eq!(map.len(), 0);
}

#[test]
fn clone_does_not_change_original() {
    let mut a = IntMap::<u32, u32>::from_iter(vec![(0, 1), (1, 2), (10, 11)]);
    let mut b = a.clone();
    assert_eq!(a, b);
    assert_eq!(b.len(), 3);
    a.insert(20, 21);
    assert_eq!(a.len(), 4);
    assert_eq!(b.len(), 3);
    b.remove(0);
    assert_eq!(a.len(), 4);
    assert_eq!(b.len(), 2);
}

#[test]
fn update_replaces_keys() {
    let mut a = IntMap::<u32, u32>::from_iter(vec![(0, 0), (1, 0), (10, 0)]);
    let b = IntMap::<u32, u32>::from_iter(vec![(1, 1), (5, 1), (11, 1)]);
    a.update(&b);
    assert_eq!(a.len(), 5);
    assert_eq!(a.get(0).unwrap(), 0);
    assert_eq!(a.get(1).unwrap(), 1);
    assert_eq!(a.get(5).unwrap(), 1);
    assert_eq!(a.get(10).unwrap(), 0);
    assert_eq!(a.get(11).unwrap(), 1);
}

#[test]
fn keys_works() {
    assert_eq!(
        IntMap::<u32, u32>::from_iter(vec![]).keys().unwrap(),
        set_of(&[])
    );
    assert_eq!(
        IntMap::<u32, u32>::from_iter(vec![(0, 100), (1, 101), (10, 110)])
            .keys()
            .unwrap(),
        set_of(&[0, 1, 10])
    );
}

#[test]
fn values_works() {
    assert_eq!(
        IntMap::<u32, u32>::from_iter(vec![]).values().unwrap(),
        set_of(&[])
    );
    assert_eq!(
        IntMap::<u32, u32>::from_iter(vec![(0, 100), (1, 101), (10, 110)])
            .values()
            .unwrap(),
        set_of(&[100, 101, 110])
    );
}

#[test]
fn contains_works() {
    let mut map = IntMap::<u32, u32>::new().unwrap();
    assert!(!map.contains(0));
    map.insert(0, 0);
    assert!(map.contains(0));
    map.insert(0, 10);
    assert!(map.contains(0));
    assert!(!map.contains(1));
    map.insert(1, 10);
    assert!(map.contains(0));
    assert!(map.contains(1));
    map.remove(0);
    assert!(!map.contains(0));
    assert!(map.contains(1));
    map.remove(0);
    assert!(!map.contains(0));
    assert!(map.contains(1));
    map.remove(1);
    assert!(!map.contains(0));
    assert!(!map.contains(1));
}

#[test]
#[should_panic]
fn assert_set_is_correct_detects_differences() {
    assert_set_is_correct([1, 2], [1, 2, 3]);
}

#[test]
fn map_iter_works() {
    let mut map = IntMap::<u32, u32>::from_iter(vec![(0, 100), (4, 104)]);
    assert_set_is_correct(pairs_u32(&map), [(0, 100), (4, 104)]);
    map.insert(u32::MAX, u32::MAX);
    assert_set_is_correct(pairs_u32(&map), [(0, 100), (4, 104), (u32::MAX, u32::MAX)]);
}

#[test]
fn map_iter_is_fused() {
    let map = IntMap::<u32, u32>::from_iter(vec![(0, 100), (4, 104)]);
    let mut iter = map.iter();
    assert!(iter.next().is_some());
    assert!(iter.next().is_some());
    assert!(iter.next().is_none());
    assert!(iter.next().is_none());
    assert!(iter.next().is_none());
    assert!(iter.next().is_none());
    assert!(iter.next().is_none());
}

#[test]
fn map_iter_of_invalid_codepoints_works() {
    let mut map = IntMap::<u32, u32>::new().unwrap();
    // Close to invalid code points
    map.insert(0xD7FF, 10);
    map.insert(0xE000, 10);
    map.insert(20, 0xD7FF);
    map.insert(21, 0xE000);

    // Invalid code points in key
    map.insert(0xD800, 3);
    map.insert(0xD912, 4);
    map.insert(0xDFFF, 5);

    // Invalid code points in value
    map.insert(23, 0xD800);
    map.insert(24, 0xD912);
    map.insert(25, 0xDFFF);

    let char_to_u32_map = IntMap::<char, u32>::from_raw(map.clone().into_raw());
    let mut found = BTreeSet::new();
    let mut iter = char_to_u32_map.iter();
    while let Some(pair) = iter.next() {
        found.insert(pair);
    }
    assert_eq!(
        found,
        BTreeSet::from_iter([
            ('\u{D7FF}', 10),
            ('\u{E000}', 10),
            ('\u{14}', 0xD7FF),
            ('\u{15}', 0xE000),
            ('\u{17}', 0xD800),
            ('\u{18}', 0xD912),
            ('\u{19}', 0xDFFF),
        ])
    );

    let u32_to_char_map = IntMap::<u32, char>::from_raw(map.clone().into_raw());
    let mut found = BTreeSet::new();
    let mut iter = u32_to_char_map.iter();
    while let Some(pair) = iter.next() {
        found.insert(pair);
    }
    assert_eq!(
        found,
        BTreeSet::from_iter([
            (0xD7FF, '\u{0a}'),
            (0xE000, '\u{0a}'),
            (20, '\u{D7FF}'),
            (21, '\u{E000}'),
            (0xD800, '\u{3}'),
            (0xD912, '\u{4}'),
            (0xDFFF, '\u{5}'),
        ])
    );

    let char_to_char_map = IntMap::<char, char>::from_raw(map.clone().into_raw());
    let mut found = BTreeSet::new();
    let mut iter = char_to_char_map.iter();
    while let Some(pair) = iter.next() {
        found.insert(pair);
    }
    assert_eq!(
        found,
        BTreeSet::from_iter([
            ('\u{D7FF}', '\u{0a}'),
            ('\u{E000}', '\u{0a}'),
            ('\u{14}', '\u{D7FF}'),
            ('\u{15}', '\u{E000}'),
        ])
    );
}

#[test]
fn value_can_be_u32_max() {
    let mut map = IntMap::<u32, u32>::new().unwrap();
    map.insert(0, u32::MAX - 1);
    map.insert(1, u32::MAX);
    assert_eq!(map.len(), 2);
    assert_eq!(map.get(0).unwrap(), u32::MAX - 1);
    assert_eq!(map.get(1).unwrap(), u32::MAX);
}

#[test]
fn key_can_be_u32_max() {
    let mut map = IntMap::<u32, u32>::new().unwrap();
    map.insert(u32::MAX - 1, 10);
    map.insert(u32::MAX, 20);
    assert_eq!(map.len(), 2);
    assert_eq!(map.get(u32::MAX - 1).unwrap(), 10);
    assert_eq!(map.get(u32::MAX).unwrap(), 20);
}

#[test]
fn raw_form_round_trips_every_pair() {
    let map = IntMap::<u32, u32>::from_iter(vec![
        (7, 3),
        (0, u32::MAX),
        (u32::MAX, 0),
        (u32::MAX - 1, u32::MAX - 1),
        (5, 5),
    ]);
    let raw = map.clone().into_raw();
    assert_eq!(
        raw,
        vec![(0, u32::MAX), (5, 5), (7, 3), (u32::MAX - 1, u32::MAX - 1), (u32::MAX, 0)]
    );
    assert_eq!(map.as_raw(), &raw);
    let back = IntMap::<u32, u32>::from_raw(raw);
    assert_eq!(back, map);
    assert_eq!(back.get(u32::MAX), Some(0));
    assert_eq!(back.get(0), Some(u32::MAX));
}

#[test]
fn keys_and_values_leave_out_the_invalid_value() {
    let map = IntMap::<u32, u32>::from_iter(vec![(u32::MAX, 1), (2, u32::MAX), (3, 1)]);
    assert_eq!(map.keys().unwrap(), set_of(&[2, 3]));
    assert_eq!(map.values().unwrap(), set_of(&[1]));
}

#[test]
fn get_needs_a_value_of_the_asked_type() {
    let map = IntMap::<u32, char>::from_raw(vec![(1, 0x61), (2, 0xD800), (3, 0x110000)]);
    assert_eq!(map.get(1), Some('a'));
    assert_eq!(map.get(2), None);
    assert_eq!(map.get(3), None);
    assert_eq!(map.get(4), None);
    assert!(map.contains(2));
}

#[test]
fn maps_with_other_pairs_differ() {
    let a = IntMap::<u32, u32>::from_iter(vec![(1, 1), (2, 2)]);
    assert_ne!(a, IntMap::<u32, u32>::from_iter(vec![(1, 1), (2, 3)]));
    assert_ne!(a, IntMap::<u32, u32>::from_iter(vec![(1, 1), (3, 2)]));
    assert_ne!(a, IntMap::<u32, u32>::from_iter(vec![(1, 1)]));
    assert_eq!(a, IntMap::<u32, u32>::from_iter(vec![(2, 2), (1, 0), (1, 1)]));
}
