//! Sorted lists of disjoint inclusive spans of `u32`, the storage behind integer sets.
//!
//! A list is well formed when every span is non-empty, stays below `u32::MAX`, and is
//! separated from the next one by at least one missing value.

use vstd::prelude::*;
use vstd::set_lib::*;

verus! {

/// Whether `v` lies in the inclusive span `r`.
pub open spec fn in_span(r: (u32, u32), v: u32) -> bool {
    r.0 <= v <= r.1
}

/// Whether some span of `s` holds `v`.
pub open spec fn covers(s: Seq<(u32, u32)>, v: u32) -> bool {
    exists|i: int| 0 <= i < s.len() && in_span(#[trigger] s[i], v)
}

/// The set of values that the spans of `s` hold.
pub open spec fn members(s: Seq<(u32, u32)>) -> Set<u32> {
    Set::new(|v: u32| covers(s, v))
}

/// All values from `lo` to `hi`, both included.
pub open spec fn interval(lo: u32, hi: u32) -> Set<u32> {
    Set::new(|v: u32| lo <= v <= hi)
}

/// Spans are non-empty, below `u32::MAX`, ascending, and never touch.
pub open spec fn well_formed(s: Seq<(u32, u32)>) -> bool {
    &&& forall|i: int| 0 <= i < s.len() ==> (#[trigger] s[i]).0 <= s[i].1 && s[i].1 < u32::MAX
    &&& forall|i: int, j: int|
        0 <= i < j < s.len() ==> (#[trigger] s[i]).1 + 1 < (#[trigger] s[j]).0
}

/// How many values the spans of `s` hold, counted span by span.
pub open spec fn total(s: Seq<(u32, u32)>) -> int
    decreases s.len(),
{
    if s.len() == 0 {
        0
    } else {
        total(s.drop_last()) + (s.last().1 - s.last().0 + 1)
    }
}

/// Appending a span adds exactly its values.
pub proof fn lemma_covers_push(s: Seq<(u32, u32)>, r: (u32, u32))
    ensures
        forall|v: u32| #[trigger] covers(s.push(r), v) <==> covers(s, v) || in_span(r, v),
{
    let t = s.push(r);
    assert forall|v: u32| covers(t, v) <==> covers(s, v) || in_span(r, v) by {
        if covers(s, v) {
            let i = choose|i: int| 0 <= i < s.len() && in_span(#[trigger] s[i], v);
            assert(in_span(t[i], v));
        }
        if in_span(r, v) {
            assert(in_span(t[s.len() as int], v));
        }
        if covers(t, v) {
            let i = choose|i: int| 0 <= i < t.len() && in_span(#[trigger] t[i], v);
            if i < s.len() {
                assert(in_span(s[i], v));
            }
        }
    }
}

/// Nothing is covered by no spans.
pub proof fn lemma_covers_empty(s: Seq<(u32, u32)>)
    requires
        s.len() == 0,
    ensures
        forall|v: u32| !#[trigger] covers(s, v),
{
}

/// Tests whether some span of `s` holds `v`.
pub fn span_contains(s: &Vec<(u32, u32)>, v: u32) -> (r: bool)
    ensures
        r == covers(s@, v),
{
    let mut i: usize = 0;
    while i < s.len()
        invariant
            i <= s.len(),
            forall|k: int| 0 <= k < i ==> !in_span(#[trigger] s@[k], v),
        decreases s.len() - i,
    {
        if s[i].0 <= v && v <= s[i].1 {
            assert(in_span(s@[i as int], v));
            return true;
        }
        i += 1;
    }
    false
}

/// While a list is rebuilt: the spans written so far, with the span `held` unless it was
/// `placed`, cover `v` exactly when the spans read so far or the range `lo..=hi` do.
pub open spec fn insert_agrees(
    done: Seq<(u32, u32)>,
    placed: bool,
    held: (u32, u32),
    read: Seq<(u32, u32)>,
    lo: u32,
    hi: u32,
    v: u32,
) -> bool {
    (covers(done, v) || (!placed && in_span(held, v))) <==> (covers(read, v) || lo <= v <= hi)
}

/// The spans of `prev` together with every value from `lo` to `hi`.
pub fn span_insert(prev: &Vec<(u32, u32)>, lo: u32, hi: u32) -> (out: Vec<(u32, u32)>)
    requires
        well_formed(prev@),
        lo <= hi < u32::MAX,
    ensures
        well_formed(out@),
        forall|v: u32| #[trigger] covers(out@, v) <==> covers(prev@, v) || lo <= v <= hi,
{
    let mut out: Vec<(u32, u32)> = Vec::new();
    let mut cur: (u32, u32) = (lo, hi);
    let mut placed: bool = false;
    let mut i: usize = 0;
    proof {
        lemma_covers_empty(prev@.take(0));
        lemma_covers_empty(out@);
    }
    while i < prev.len()
        invariant
            i <= prev.len(),
            well_formed(prev@),
            well_formed(out@),
            cur.0 <= lo <= hi <= cur.1 < u32::MAX,
            forall|k: int, j: int|
                0 <= k < out.len() && i <= j < prev.len() ==> (#[trigger] out@[k]).1 + 1 < (
                #[trigger] prev@[j]).0,
            !placed ==> forall|k: int| 0 <= k < out.len() ==> (#[trigger] out@[k]).1 + 1 < cur.0,
            forall|v: u32| #[trigger]
                insert_agrees(out@, placed, cur, prev@.take(i as int), lo, hi, v),
        decreases prev.len() - i,
    {
        let r = prev[i];
        let ghost done0 = out@;
        let ghost placed0 = placed;
        let ghost cur0 = cur;
        let ghost read0 = prev@.take(i as int);
        if placed || r.1 + 1 < cur.0 {
            out.push(r);
            proof {
                lemma_covers_push(done0, r);
            }
        } else if cur.1 + 1 < r.0 {
            out.push(cur);
            out.push(r);
            placed = true;
            proof {
                lemma_covers_push(done0, cur0);
                lemma_covers_push(done0.push(cur0), r);
            }
        } else {
            let new_lo: u32 = if r.0 < cur.0 { r.0 } else { cur.0 };
            let new_hi: u32 = if r.1 > cur.1 { r.1 } else { cur.1 };
            cur = (new_lo, new_hi);
        }
        i += 1;
        proof {
            let read1 = prev@.take(i as int);
            assert(read1 =~= read0.push(r));
            lemma_covers_push(read0, r);
            assert forall|v: u32| #[trigger] insert_agrees(out@, placed, cur, read1, lo, hi, v) by {
                assert(insert_agrees(done0, placed0, cur0, read0, lo, hi, v));
                assert(covers(read1, v) <==> covers(read0, v) || in_span(r, v));
                if out@ == done0.push(r) {
                    assert(covers(out@, v) <==> covers(done0, v) || in_span(r, v));
                } else if out@ == done0 {
                } else {
                    let mid = done0.push(cur0);
                    assert(covers(mid, v) <==> covers(done0, v) || in_span(cur0, v));
                    assert(covers(out@, v) <==> covers(mid, v) || in_span(r, v));
                }
            }
        }
    }
    let ghost done0 = out@;
    if !placed {
        out.push(cur);
    }
    proof {
        assert(prev@.take(prev.len() as int) =~= prev@);
        lemma_covers_push(done0, cur);
        assert forall|v: u32| #[trigger] covers(out@, v) <==> covers(prev@, v) || lo <= v <= hi by {
            assert(insert_agrees(done0, placed, cur, prev@, lo, hi, v));
            if !placed {
                assert(covers(out@, v) <==> covers(done0, v) || in_span(cur, v));
            }
        }
    }
    out
}

/// While a list is rebuilt: the spans written so far cover `v` exactly when the spans read
/// so far do and `v` is outside the removed range `lo..=hi`.
pub open spec fn remove_agrees(
    done: Seq<(u32, u32)>,
    read: Seq<(u32, u32)>,
    lo: u32,
    hi: u32,
    v: u32,
) -> bool {
    covers(done, v) <==> (covers(read, v) && !(lo <= v <= hi))
}

/// The spans of `prev` without any value from `lo` to `hi`.
pub fn span_remove(prev: &Vec<(u32, u32)>, lo: u32, hi: u32) -> (out: Vec<(u32, u32)>)
    requires
        well_formed(prev@),
        lo <= hi,
    ensures
        well_formed(out@),
        forall|v: u32| #[trigger] covers(out@, v) <==> (covers(prev@, v) && !(lo <= v <= hi)),
{
    let mut out: Vec<(u32, u32)> = Vec::new();
    let mut i: usize = 0;
    proof {
        lemma_covers_empty(prev@.take(0));
        lemma_covers_empty(out@);
    }
    while i < prev.len()
        invariant
            i <= prev.len(),
            well_formed(prev@),
            well_formed(out@),
            lo <= hi,
            forall|k: int, j: int|
                0 <= k < out.len() && i <= j < prev.len() ==> (#[trigger] out@[k]).1 + 1 < (
                #[trigger] prev@[j]).0,
            forall|v: u32| #[trigger] remove_agrees(out@, prev@.take(i as int), lo, hi, v),
        decreases prev.len() - i,
    {
        let r = prev[i];
        let ghost done0 = out@;
        let ghost read0 = prev@.take(i as int);
        let ghost left = (r.0, (lo - 1) as u32);
        let ghost right = ((hi + 1) as u32, r.1);
        if r.1 < lo || hi < r.0 {
            out.push(r);
        } else {
            if r.0 < lo {
                out.push((r.0, lo - 1));
            }
            if hi < r.1 {
                out.push((hi + 1, r.1));
            }
        }
        i += 1;
        proof {
            let read1 = prev@.take(i as int);
            assert(read1 =~= read0.push(r));
            lemma_covers_push(read0, r);
            lemma_covers_push(done0, r);
            lemma_covers_push(done0, left);
            lemma_covers_push(done0, right);
            lemma_covers_push(done0.push(left), right);
            assert forall|v: u32| #[trigger] remove_agrees(out@, read1, lo, hi, v) by {
                assert(remove_agrees(done0, read0, lo, hi, v));
                assert(covers(read1, v) <==> covers(read0, v) || in_span(r, v));
                if out@ == done0.push(r) {
                    assert(covers(out@, v) <==> covers(done0, v) || in_span(r, v));
                } else if out@ == done0 {
                } else if out@ == done0.push(left) {
                    assert(covers(out@, v) <==> covers(done0, v) || in_span(left, v));
                } else if out@ == done0.push(right) {
                    assert(covers(out@, v) <==> covers(done0, v) || in_span(right, v));
                } else {
                    let mid = done0.push(left);
                    assert(covers(mid, v) <==> covers(done0, v) || in_span(left, v));
                    assert(covers(out@, v) <==> covers(mid, v) || in_span(right, v));
                }
            }
        }
    }
    proof {
        assert(prev@.take(prev.len() as int) =~= prev@);
        assert forall|v: u32| #[trigger]
            covers(out@, v) <==> (covers(prev@, v) && !(lo <= v <= hi)) by {
            assert(remove_agrees(out@, prev@, lo, hi, v));
        }
    }
    out
}

/// An interval from `lo` to `hi` is finite and holds `hi - lo + 1` values.
pub proof fn lemma_interval_len(lo: u32, hi: u32)
    requires
        lo <= hi,
    ensures
        interval(lo, hi).finite(),
        interval(lo, hi).len() == hi - lo + 1,
    decreases hi - lo,
{
    if lo == hi {
        assert(interval(lo, hi) =~= Set::<u32>::empty().insert(lo));
    } else {
        let below = (hi - 1) as u32;
        lemma_interval_len(lo, below);
        assert(interval(lo, hi) =~= interval(lo, below).insert(hi));
    }
}

/// Every prefix of a well-formed list is well formed.
pub proof fn lemma_prefix_well_formed(s: Seq<(u32, u32)>, n: int)
    requires
        well_formed(s),
        0 <= n <= s.len(),
    ensures
        well_formed(s.take(n)),
{
}

/// The values of a well-formed list are finitely many, as many as its spans add up to,
/// and no more than fit below the end of its last span.
pub proof fn lemma_members_len(s: Seq<(u32, u32)>)
    requires
        well_formed(s),
    ensures
        members(s).finite(),
        members(s).len() == total(s),
        0 <= total(s) <= u32::MAX,
        s.len() > 0 ==> total(s) <= s.last().1 + 1,
    decreases s.len(),
{
    if s.len() == 0 {
        assert(members(s) =~= Set::<u32>::empty());
    } else {
        let front = s.drop_last();
        let last = s.last();
        assert(front =~= s.take(s.len() - 1));
        lemma_prefix_well_formed(s, s.len() - 1);
        lemma_members_len(front);
        lemma_interval_len(last.0, last.1);
        assert(front.push(last) =~= s);
        lemma_covers_push(front, last);
        assert(members(s) =~= members(front) + interval(last.0, last.1)) by {
            assert forall|v: u32|
                members(s).contains(v) <==> (members(front) + interval(last.0, last.1)).contains(
                    v,
                ) by {
                assert(covers(front.push(last), v) <==> covers(front, v) || in_span(last, v));
            }
        }
        assert(members(front).disjoint(interval(last.0, last.1))) by {
            assert forall|v: u32|
                !(members(front).contains(v) && interval(last.0, last.1).contains(v)) by {
                if covers(front, v) {
                    let i = choose|i: int| 0 <= i < front.len() && in_span(#[trigger] front[i], v);
                    assert(s[i].1 + 1 < s[s.len() - 1].0);
                }
            }
        }
        lemma_set_disjoint_lens(members(front), interval(last.0, last.1));
        if front.len() > 0 {
            assert(s[front.len() - 1].1 + 1 < s[s.len() - 1].0);
        }
    }
}

/// Counts the values that the spans of `s` hold.
pub fn span_len(s: &Vec<(u32, u32)>) -> (n: usize)
    requires
        well_formed(s@),
    ensures
        n == total(s@),
        n == members(s@).len(),
        members(s@).finite(),
{
    let mut n: usize = 0;
    let mut i: usize = 0;
    while i < s.len()
        invariant
            i <= s.len(),
            well_formed(s@),
            n == total(s@.take(i as int)),
        decreases s.len() - i,
    {
        proof {
            lemma_prefix_well_formed(s@, i + 1);
            lemma_members_len(s@.take(i + 1));
            assert(s@.take(i + 1).drop_last() =~= s@.take(i as int));
        }
        n = n + (s[i].1 - s[i].0) as usize + 1;
        i += 1;
    }
    proof {
        assert(s@.take(s.len() as int) =~= s@);
        lemma_members_len(s@);
    }
    n
}

/// A range that a well-formed list covers throughout lies within one of its spans.
pub proof fn lemma_range_in_one_span(s: Seq<(u32, u32)>, lo: u32, hi: u32)
    requires
        well_formed(s),
        lo <= hi,
        forall|v: u32| lo <= v <= hi ==> #[trigger] covers(s, v),
    ensures
        exists|i: int| 0 <= i < s.len() && (#[trigger] s[i]).0 <= lo && hi <= s[i].1,
{
    assert(covers(s, lo));
    let j = choose|j: int| 0 <= j < s.len() && in_span(#[trigger] s[j], lo);
    if hi > s[j].1 {
        let w = (s[j].1 + 1) as u32;
        assert(covers(s, w));
        let k = choose|k: int| 0 <= k < s.len() && in_span(#[trigger] s[k], w);
        if k < j {
            assert(s[k].1 + 1 < s[j].0);
        } else if k > j {
            assert(s[j].1 + 1 < s[k].0);
        }
        assert(false);
    }
    assert(s[j].0 <= lo && hi <= s[j].1);
}

/// Tests whether the spans of `s` hold every value from `lo` to `hi`.
pub fn span_holds_range(s: &Vec<(u32, u32)>, lo: u32, hi: u32) -> (r: bool)
    requires
        well_formed(s@),
        lo <= hi,
    ensures
        r == (forall|v: u32| lo <= v <= hi ==> #[trigger] covers(s@, v)),
{
    let mut i: usize = 0;
    while i < s.len()
        invariant
            i <= s.len(),
            lo <= hi,
            forall|k: int| 0 <= k < i ==> !((#[trigger] s@[k]).0 <= lo && hi <= s@[k].1),
        decreases s.len() - i,
    {
        if s[i].0 <= lo && hi <= s[i].1 {
            proof {
                assert forall|v: u32| lo <= v <= hi implies #[trigger] covers(s@, v) by {
                    assert(in_span(s@[i as int], v));
                }
            }
            return true;
        }
        i += 1;
    }
    proof {
        if forall|v: u32| lo <= v <= hi ==> #[trigger] covers(s@, v) {
            lemma_range_in_one_span(s@, lo, hi);
            assert(false);
        }
    }
    false
}

/// Tests whether every value that `a` holds is held by `b` too.
pub fn span_subset(a: &Vec<(u32, u32)>, b: &Vec<(u32, u32)>) -> (r: bool)
    requires
        well_formed(a@),
        well_formed(b@),
    ensures
        r == members(a@).subset_of(members(b@)),
{
    let mut i: usize = 0;
    while i < a.len()
        invariant
            i <= a.len(),
            well_formed(a@),
            well_formed(b@),
            forall|k: int, v: u32|
                0 <= k < i && in_span(#[trigger] a@[k], v) ==> #[trigger] covers(b@, v),
        decreases a.len() - i,
    {
        if !span_holds_range(b, a[i].0, a[i].1) {
            proof {
                let lo = a@[i as int].0;
                let hi = a@[i as int].1;
                let w = choose|w: u32| lo <= w <= hi && !covers(b@, w);
                assert(in_span(a@[i as int], w));
                assert(covers(a@, w));
                assert(members(a@).contains(w) && !members(b@).contains(w));
            }
            return false;
        }
        proof {
            assert forall|k: int, v: u32|
                0 <= k < i + 1 && in_span(#[trigger] a@[k], v) implies #[trigger] covers(
                b@,
                v,
            ) by {
                if k == i {
                    assert(a@[i as int].0 <= v <= a@[i as int].1);
                }
            }
        }
        i += 1;
    }
    proof {
        assert forall|v: u32| members(a@).contains(v) implies members(b@).contains(v) by {
            let k = choose|k: int| 0 <= k < a@.len() && in_span(#[trigger] a@[k], v);
            assert(covers(b@, v));
        }
    }
    true
}

/// Where a forward cursor stands: before every value when it is `u32::MAX`, else on itself.
pub open spec fn floor_of(cursor: u32) -> int {
    if cursor == u32::MAX {
        -1
    } else {
        cursor as int
    }
}

/// Whether `m` is the least value of `s` above `floor`.
pub open spec fn least_above(s: Seq<(u32, u32)>, floor: int, m: u32) -> bool {
    &&& covers(s, m)
    &&& floor < m
    &&& forall|v: u32| #[trigger] covers(s, v) && floor < v ==> m <= v
}

/// Whether `m` is the greatest value of `s` below `ceiling`.
pub open spec fn greatest_below(s: Seq<(u32, u32)>, ceiling: u32, m: u32) -> bool {
    &&& covers(s, m)
    &&& m < ceiling
    &&& forall|v: u32| #[trigger] covers(s, v) && v < ceiling ==> v <= m
}

/// The least value of `s` after the cursor, or the least of all for the cursor `u32::MAX`.
pub fn span_next(s: &Vec<(u32, u32)>, cursor: u32) -> (r: Option<u32>)
    requires
        well_formed(s@),
    ensures
        match r {
            Some(m) => least_above(s@, floor_of(cursor), m),
            None => forall|v: u32| #[trigger] covers(s@, v) ==> v <= floor_of(cursor),
        },
{
    let mut i: usize = 0;
    while i < s.len()
        invariant
            i <= s.len(),
            well_formed(s@),
            forall|k: int| 0 <= k < i ==> (#[trigger] s@[k]).1 <= floor_of(cursor),
        decreases s.len() - i,
    {
        let r = s[i];
        if cursor == u32::MAX || r.1 > cursor {
            let m: u32 = if cursor == u32::MAX || r.0 > cursor {
                r.0
            } else {
                cursor + 1
            };
            proof {
                assert(in_span(s@[i as int], m));
                assert forall|v: u32| #[trigger]
                    covers(s@, v) && floor_of(cursor) < v implies m <= v by {
                    let j = choose|j: int| 0 <= j < s@.len() && in_span(#[trigger] s@[j], v);
                    if j > i {
                        assert(s@[i as int].1 + 1 < s@[j].0);
                    }
                }
            }
            return Some(m);
        }
        i += 1;
    }
    proof {
        assert forall|v: u32| #[trigger] covers(s@, v) implies v <= floor_of(cursor) by {
            let j = choose|j: int| 0 <= j < s@.len() && in_span(#[trigger] s@[j], v);
        }
    }
    None
}

/// The greatest value of `s` before the cursor, or the greatest of all for the cursor
/// `u32::MAX`.
pub fn span_previous(s: &Vec<(u32, u32)>, cursor: u32) -> (r: Option<u32>)
    requires
        well_formed(s@),
    ensures
        match r {
            Some(m) => greatest_below(s@, cursor, m),
            None => forall|v: u32| #[trigger] covers(s@, v) ==> v >= cursor,
        },
{
    let mut i: usize = s.len();
    while i > 0
        invariant
            i <= s.len(),
            well_formed(s@),
            forall|k: int| i <= k < s.len() ==> (#[trigger] s@[k]).0 >= cursor,
        decreases i,
    {
        let r = s[i - 1];
        if r.0 < cursor {
            let m: u32 = if r.1 < cursor {
                r.1
            } else {
                cursor - 1
            };
            proof {
                assert(in_span(s@[i - 1], m));
                assert forall|v: u32| #[trigger] covers(s@, v) && v < cursor implies v <= m by {
                    let j = choose|j: int| 0 <= j < s@.len() && in_span(#[trigger] s@[j], v);
                    if j < i - 1 {
                        assert(s@[j].1 + 1 < s@[i - 1].0);
                    }
                }
            }
            return Some(m);
        }
        i -= 1;
    }
    proof {
        assert forall|v: u32| #[trigger] covers(s@, v) implies v >= cursor by {
            let j = choose|j: int| 0 <= j < s@.len() && in_span(#[trigger] s@[j], v);
        }
    }
    None
}

} // verus!
