//! New glyph ids for the glyphs that a subset holds.
//!
//! Three policies exist. With the retain switch on, every glyph keeps its id. Otherwise a
//! glyph that the caller asked a new id for gets that id, and the others are numbered in
//! ascending order of their old ids, starting right after the greatest id that the caller
//! asked for; when the caller asked for none, that is a dense numbering from 0.

use crate::error::SubsettingError;
use crate::flags::{Flags, RETAIN_GIDS};
use crate::map::IntMap;
use crate::pairs::{has_value, lemma_has_value_push, lemma_values};
use vstd::prelude::*;

verus! {

/// How many glyphs below `g` are marked and outside `skip`.
pub open spec fn rank(keep: Seq<bool>, skip: Set<u32>, g: int) -> nat
    decreases g,
{
    if g <= 0 {
        0
    } else {
        rank(keep, skip, g - 1) + if g - 1 < keep.len() && keep[g - 1] && !skip.contains(
            (g - 1) as u32,
        ) {
            1nat
        } else {
            0nat
        }
    }
}

/// Whether `b` is the id right after the greatest value of `wanted`, or 0 when `wanted` has
/// no value.
pub open spec fn is_first_free(wanted: Map<u32, u32>, b: int) -> bool {
    &&& forall|v: u32| wanted.values().contains(v) ==> v < b
    &&& b == 0 || (0 < b <= u32::MAX + 1 && wanted.values().contains((b - 1) as u32))
}

/// The id right after the greatest value of `wanted`, or 0 when `wanted` has no value.
pub open spec fn first_free(wanted: Map<u32, u32>) -> int {
    choose|b: int| is_first_free(wanted, b)
}

/// Only one id is the first free one.
pub proof fn lemma_first_free_unique(wanted: Map<u32, u32>, b: int)
    requires
        is_first_free(wanted, b),
    ensures
        first_free(wanted) == b,
{
    let c = first_free(wanted);
    assert(is_first_free(wanted, c));
    if b < c {
        assert(wanted.values().contains((c - 1) as u32));
    } else if c < b {
        assert(wanted.values().contains((b - 1) as u32));
    }
}

/// The new id of the glyph `g` among the marked glyphs, before it is known to fit in `u32`.
pub open spec fn new_id(flags: Flags, wanted: Map<u32, u32>, keep: Seq<bool>, g: u32) -> int {
    if flags.has(RETAIN_GIDS) {
        g as int
    } else if wanted.contains_key(g) {
        wanted[g] as int
    } else {
        first_free(wanted) + rank(keep, wanted.dom(), g as int)
    }
}

/// Whether no numbering exists: both policies of the caller are on at once, a new id does
/// not fit in `u32`, or two marked glyphs would share one new id.
pub open spec fn unmappable(flags: Flags, wanted: Map<u32, u32>, keep: Seq<bool>) -> bool {
    ||| flags.has(RETAIN_GIDS) && wanted.dom().len() > 0
    ||| exists|g: int| 0 <= g < keep.len() && #[trigger] keep[g] && new_id(flags, wanted, keep, g as u32) > u32::MAX
    ||| exists|a: int, b: int|
        0 <= a < b < keep.len() && #[trigger] keep[a] && #[trigger] keep[b] && new_id(
            flags,
            wanted,
            keep,
            a as u32,
        ) == new_id(flags, wanted, keep, b as u32)
}

/// The rank never shrinks as the glyph id grows.
pub proof fn lemma_rank_grows(keep: Seq<bool>, skip: Set<u32>, a: int, b: int)
    requires
        a <= b,
    ensures
        rank(keep, skip, a) <= rank(keep, skip, b),
    decreases b - a,
{
    if a < b {
        lemma_rank_grows(keep, skip, a, b - 1);
    }
}

/// A marked glyph outside `skip` has a smaller rank than every glyph above it.
pub proof fn lemma_rank_strict(keep: Seq<bool>, skip: Set<u32>, a: int, b: int)
    requires
        0 <= a < b,
        a < keep.len(),
        keep[a],
        !skip.contains(a as u32),
    ensures
        rank(keep, skip, a) < rank(keep, skip, b),
{
    lemma_rank_grows(keep, skip, a + 1, b);
}

/// No more glyphs are counted by a rank than there are glyphs below.
pub proof fn lemma_rank_bound(keep: Seq<bool>, skip: Set<u32>, g: int)
    requires
        0 <= g,
    ensures
        rank(keep, skip, g) <= g,
    decreases g,
{
    if g > 0 {
        lemma_rank_bound(keep, skip, g - 1);
    }
}

/// Without the retain switch and without ids asked for by the caller, the new ids ascend as
/// the old ids do, and glyph 0, when marked, stays glyph 0.
pub proof fn lemma_default_remap_monotone(flags: Flags, keep: Seq<bool>, a: u32, b: u32)
    requires
        !flags.has(RETAIN_GIDS),
        a < b < keep.len(),
        keep[a as int],
        keep[b as int],
    ensures
        new_id(flags, Map::<u32, u32>::empty(), keep, a) < new_id(
            flags,
            Map::<u32, u32>::empty(),
            keep,
            b,
        ),
        new_id(flags, Map::<u32, u32>::empty(), keep, 0) == 0,
        0 <= new_id(flags, Map::<u32, u32>::empty(), keep, a) <= a,
{
    let none = Map::<u32, u32>::empty();
    assert(is_first_free(none, 0)) by {
        assert forall|v: u32| none.values().contains(v) implies v < 0 by {
            let k = choose|k: u32| #[trigger] none.dom().contains(k) && none[k] == v;
        }
    }
    lemma_first_free_unique(none, 0);
    lemma_rank_strict(keep, none.dom(), a as int, b as int);
    lemma_rank_bound(keep, none.dom(), a as int);
}

/// With the retain switch on, every glyph keeps its id.
pub proof fn lemma_retain_keeps_ids(flags: Flags, wanted: Map<u32, u32>, keep: Seq<bool>, g: u32)
    requires
        flags.has(RETAIN_GIDS),
    ensures
        new_id(flags, wanted, keep, g) == g,
{
}

/// When every glyph is marked and none is skipped, the rank of a glyph is its id.
pub proof fn lemma_rank_of_all(keep: Seq<bool>, g: int)
    requires
        0 <= g <= keep.len(),
        forall|a: int| 0 <= a < keep.len() ==> #[trigger] keep[a],
    ensures
        rank(keep, Set::<u32>::empty(), g) == g,
    decreases g,
{
    if g > 0 {
        lemma_rank_of_all(keep, g - 1);
    }
}

/// A map without entries has 0 as its first free id.
pub proof fn lemma_first_free_of_none()
    ensures
        first_free(Map::<u32, u32>::empty()) == 0,
{
    let none = Map::<u32, u32>::empty();
    assert(is_first_free(none, 0)) by {
        assert forall|v: u32| none.values().contains(v) implies v < 0 by {
            let k = choose|k: u32| #[trigger] none.dom().contains(k) && none[k] == v;
        }
    }
    lemma_first_free_unique(none, 0);
}

/// The id right after the greatest value of the map, or 0 for a map without entries.
pub fn first_free_of(wanted: &IntMap<u32, u32>) -> (b: u64)
    ensures
        b == first_free(wanted@),
        b <= u32::MAX + 1,
        is_first_free(wanted@, b as int),
{
    let pairs = wanted.as_raw();
    let mut b: u64 = 0;
    let mut i: usize = 0;
    while i < pairs.len()
        invariant
            i <= pairs.len(),
            b <= u32::MAX + 1,
            forall|j: int| 0 <= j < i ==> (#[trigger] pairs@[j]).1 < b,
            b == 0 || has_value(pairs@.take(i as int), (b - 1) as u32),
        decreases pairs.len() - i,
    {
        let v = pairs[i].1;
        proof {
            assert(pairs@.take(i + 1) =~= pairs@.take(i as int).push(pairs@[i as int]));
            if b > 0 {
                lemma_has_value_push(pairs@.take(i as int), pairs@[i as int], (b - 1) as u32);
            }
            lemma_has_value_push(pairs@.take(i as int), pairs@[i as int], v);
        }
        if v as u64 + 1 > b {
            b = v as u64 + 1;
        }
        i += 1;
    }
    proof {
        assert(pairs@.take(pairs.len() as int) =~= pairs@);
        assert forall|v: u32| wanted@.values().contains(v) implies v < b by {
            lemma_values(pairs@, v);
            let j = choose|j: int| 0 <= j < pairs@.len() && (#[trigger] pairs@[j]).1 == v;
        }
        if b > 0 {
            lemma_values(pairs@, (b - 1) as u32);
        }
        lemma_first_free_unique(wanted@, b as int);
    }
    b
}

/// Whether `old_to_new` gives every marked glyph its new id, and no other glyph any.
pub open spec fn is_numbering(
    old_to_new: Map<u32, u32>,
    flags: Flags,
    wanted: Map<u32, u32>,
    keep: Seq<bool>,
) -> bool {
    &&& forall|g: u32| #[trigger]
        old_to_new.contains_key(g) <==> ((g as int) < keep.len() && keep[g as int])
    &&& forall|g: u32|
        old_to_new.contains_key(g) ==> #[trigger] old_to_new[g] == new_id(flags, wanted, keep, g)
}

/// Whether `new_to_old` leads from every new id back to the glyph that has it, and from
/// nothing else anywhere.
pub open spec fn is_inverse(new_to_old: Map<u32, u32>, old_to_new: Map<u32, u32>) -> bool {
    &&& forall|g: u32|
        old_to_new.contains_key(g) ==> new_to_old.contains_key(#[trigger] old_to_new[g])
            && new_to_old[old_to_new[g]] == g
    &&& forall|n: u32|
        new_to_old.contains_key(n) ==> old_to_new.contains_key(#[trigger] new_to_old[n])
            && old_to_new[new_to_old[n]] == n
}

/// While glyphs are numbered: how the two maps stand for the glyph `g` once the glyphs below
/// `upto` are done.
pub open spec fn numbered_at(
    old_to_new: Map<u32, u32>,
    new_to_old: Map<u32, u32>,
    flags: Flags,
    wanted: Map<u32, u32>,
    keep: Seq<bool>,
    upto: int,
    g: u32,
) -> bool {
    &&& old_to_new.contains_key(g) <==> (g < upto && keep[g as int])
    &&& old_to_new.contains_key(g) ==> old_to_new[g] == new_id(flags, wanted, keep, g)
        && new_to_old.contains_key(old_to_new[g]) && new_to_old[old_to_new[g]] == g
}

/// While glyphs are numbered: the new id `n`, when taken, leads back to the glyph that has
/// it.
pub open spec fn inverse_at(old_to_new: Map<u32, u32>, new_to_old: Map<u32, u32>, n: u32) -> bool {
    new_to_old.contains_key(n) ==> old_to_new.contains_key(new_to_old[n])
        && old_to_new[new_to_old[n]] == n
}

/// Gives every marked glyph its new id.
///
/// Returns the map from old to new ids and the map from new to old ids. Fails when the
/// retain switch is on although the caller asked for ids, when a new id does not fit in
/// `u32`, and when two marked glyphs would share a new id.
pub fn number_glyphs(flags: Flags, wanted: &IntMap<u32, u32>, keep: &Vec<bool>) -> (r: Result<
    (IntMap<u32, u32>, IntMap<u32, u32>),
    SubsettingError,
>)
    requires
        keep.len() <= u32::MAX,
    ensures
        r is Err <==> unmappable(flags, wanted@, keep@),
        r matches Ok((old_to_new, new_to_old)) ==> is_numbering(
            old_to_new@,
            flags,
            wanted@,
            keep@,
        ) && is_inverse(new_to_old@, old_to_new@),
{
    let retain = flags.contains(RETAIN_GIDS);
    if retain && wanted.len() > 0 {
        return Err(SubsettingError);
    }
    let base = first_free_of(wanted);
    let mut old_to_new = IntMap::<u32, u32>::new().unwrap();
    let mut new_to_old = IntMap::<u32, u32>::new().unwrap();
    let mut counter: u64 = 0;
    let mut g: usize = 0;
    while g < keep.len()
        invariant
            g <= keep.len(),
            keep.len() <= u32::MAX,
            retain == flags.has(RETAIN_GIDS),
            !(retain && wanted@.dom().len() > 0),
            base == first_free(wanted@),
            base <= u32::MAX + 1,
            counter == rank(keep@, wanted@.dom(), g as int),
            counter <= g,
            forall|x: u32| #[trigger]
                numbered_at(old_to_new@, new_to_old@, flags, wanted@, keep@, g as int, x),
            forall|n: u32| #[trigger] inverse_at(old_to_new@, new_to_old@, n),
        decreases keep.len() - g,
    {
        let ghost o0 = old_to_new@;
        let ghost n0 = new_to_old@;
        if keep[g] {
            let asked = wanted.get(g as u32);
            let id: u64 = if retain {
                g as u64
            } else {
                match asked {
                    Some(n) => n as u64,
                    None => base + counter,
                }
            };
            assert(id == new_id(flags, wanted@, keep@, g as u32));
            if id > u32::MAX as u64 {
                return Err(SubsettingError);
            }
            if new_to_old.contains(id as u32) {
                proof {
                    let a = n0[id as u32];
                    assert(inverse_at(o0, n0, id as u32));
                    assert(numbered_at(o0, n0, flags, wanted@, keep@, g as int, a));
                    assert(0 <= a < g && keep@[a as int] && keep@[g as int]);
                    assert(new_id(flags, wanted@, keep@, a) == new_id(
                        flags,
                        wanted@,
                        keep@,
                        g as u32,
                    ));
                }
                return Err(SubsettingError);
            }
            old_to_new.insert(g as u32, id as u32);
            new_to_old.insert(id as u32, g as u32);
            if asked.is_none() {
                counter += 1;
            }
        }
        g += 1;
        proof {
            assert forall|x: u32| #[trigger]
                numbered_at(old_to_new@, new_to_old@, flags, wanted@, keep@, g as int, x) by {
                assert(numbered_at(o0, n0, flags, wanted@, keep@, g - 1, x));
            }
            assert forall|n: u32| #[trigger] inverse_at(old_to_new@, new_to_old@, n) by {
                assert(inverse_at(o0, n0, n));
                if n0.contains_key(n) {
                    assert(numbered_at(o0, n0, flags, wanted@, keep@, g - 1, n0[n]));
                }
            }
        }
    }
    proof {
        assert forall|x: u32| #[trigger]
            old_to_new@.contains_key(x) <==> ((x as int) < keep.len() && keep@[x as int]) by {
            assert(numbered_at(old_to_new@, new_to_old@, flags, wanted@, keep@, g as int, x));
        }
        assert forall|x: u32| old_to_new@.contains_key(x) implies #[trigger] old_to_new@[x]
            == new_id(flags, wanted@, keep@, x) by {
            assert(numbered_at(old_to_new@, new_to_old@, flags, wanted@, keep@, g as int, x));
        }
        assert forall|x: u32| old_to_new@.contains_key(x) implies new_to_old@.contains_key(
            #[trigger] old_to_new@[x],
        ) && new_to_old@[old_to_new@[x]] == x by {
            assert(numbered_at(old_to_new@, new_to_old@, flags, wanted@, keep@, g as int, x));
        }
        assert forall|n: u32| new_to_old@.contains_key(n) implies old_to_new@.contains_key(
            #[trigger] new_to_old@[n],
        ) && old_to_new@[new_to_old@[n]] == n by {
            assert(inverse_at(old_to_new@, new_to_old@, n));
        }
        assert(!unmappable(flags, wanted@, keep@)) by {
            assert forall|a: int| 0 <= a < keep.len() && #[trigger] keep@[a] implies new_id(
                flags,
                wanted@,
                keep@,
                a as u32,
            ) <= u32::MAX by {
                assert(numbered_at(
                    old_to_new@,
                    new_to_old@,
                    flags,
                    wanted@,
                    keep@,
                    g as int,
                    a as u32,
                ));
            }
            assert forall|a: int, b: int|
                0 <= a < b < keep.len() && #[trigger] keep@[a] && #[trigger] keep@[b] implies new_id(
                flags,
                wanted@,
                keep@,
                a as u32,
            ) != new_id(flags, wanted@, keep@, b as u32) by {
                assert(numbered_at(
                    old_to_new@,
                    new_to_old@,
                    flags,
                    wanted@,
                    keep@,
                    g as int,
                    a as u32,
                ));
                assert(numbered_at(
                    old_to_new@,
                    new_to_old@,
                    flags,
                    wanted@,
                    keep@,
                    g as int,
                    b as u32,
                ));
            }
        }
    }
    Ok((old_to_new, new_to_old))
}

} // verus!
