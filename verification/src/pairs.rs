//! Lists of key-value pairs in ascending key order, the storage behind integer maps.

use vstd::prelude::*;

verus! {

/// Keys ascend strictly, so no key occurs twice.
pub open spec fn ascending(s: Seq<(u32, u32)>) -> bool {
    forall|i: int, j: int| 0 <= i < j < s.len() ==> (#[trigger] s[i]).0 < (#[trigger] s[j]).0
}

/// The value that the list gives for `k`: that of the last pair with this key.
pub open spec fn lookup(s: Seq<(u32, u32)>, k: u32) -> Option<u32>
    decreases s.len(),
{
    if s.len() == 0 {
        None
    } else if s.last().0 == k {
        Some(s.last().1)
    } else {
        lookup(s.drop_last(), k)
    }
}

/// The partial function that the list describes.
pub open spec fn to_map(s: Seq<(u32, u32)>) -> Map<u32, u32> {
    Map::new(|k: u32| lookup(s, k) is Some, |k: u32| lookup(s, k)->0)
}

/// Appending a pair sets its key and leaves every other key as it was.
pub proof fn lemma_lookup_push(s: Seq<(u32, u32)>, p: (u32, u32), k: u32)
    ensures
        lookup(s.push(p), k) == if p.0 == k {
            Some(p.1)
        } else {
            lookup(s, k)
        },
{
    assert(s.push(p).drop_last() =~= s);
}

/// A key that the list gives a value to is the key of one of its pairs, with that value.
pub proof fn lemma_lookup_some(s: Seq<(u32, u32)>, k: u32)
    requires
        lookup(s, k) is Some,
    ensures
        exists|i: int| 0 <= i < s.len() && #[trigger] s[i] == (k, lookup(s, k)->0),
    decreases s.len(),
{
    if s.last().0 == k {
        assert(s[s.len() - 1] == (k, lookup(s, k)->0));
    } else {
        lemma_lookup_some(s.drop_last(), k);
        let i = choose|i: int|
            0 <= i < s.drop_last().len() && #[trigger] s.drop_last()[i] == (k, lookup(s, k)->0);
        assert(s[i] == (k, lookup(s, k)->0));
    }
}

/// In an ascending list every pair is what the list gives for its key.
pub proof fn lemma_lookup_at(s: Seq<(u32, u32)>, i: int)
    requires
        ascending(s),
        0 <= i < s.len(),
    ensures
        lookup(s, s[i].0) == Some(s[i].1),
    decreases s.len(),
{
    if i < s.len() - 1 {
        assert(s[i].0 < s[s.len() - 1].0);
        assert(s.drop_last()[i] == s[i]);
        lemma_lookup_at(s.drop_last(), i);
    }
}

/// A list gives no value for a key that none of its pairs has.
pub proof fn lemma_lookup_none(s: Seq<(u32, u32)>, k: u32)
    requires
        forall|i: int| 0 <= i < s.len() ==> (#[trigger] s[i]).0 != k,
    ensures
        lookup(s, k) is None,
    decreases s.len(),
{
    if s.len() > 0 {
        assert(s[s.len() - 1].0 != k);
        assert forall|i: int| 0 <= i < s.drop_last().len() implies (#[trigger] s.drop_last()[i]).0
            != k by {
            assert(s[i].0 != k);
        }
        lemma_lookup_none(s.drop_last(), k);
    }
}

/// The keys of an ascending list are finitely many: as many as it has pairs.
pub proof fn lemma_to_map_len(s: Seq<(u32, u32)>)
    requires
        ascending(s),
    ensures
        to_map(s).dom().finite(),
        to_map(s).dom().len() == s.len(),
    decreases s.len(),
{
    if s.len() == 0 {
        assert(to_map(s).dom() =~= Set::<u32>::empty());
    } else {
        let front = s.drop_last();
        let p = s.last();
        assert(ascending(front)) by {
            assert forall|i: int, j: int| 0 <= i < j < front.len() implies (#[trigger] front[i]).0
                < (#[trigger] front[j]).0 by {
                assert(s[i].0 < s[j].0);
            }
        }
        lemma_to_map_len(front);
        assert(lookup(front, p.0) is None) by {
            assert forall|i: int| 0 <= i < front.len() implies (#[trigger] front[i]).0 != p.0 by {
                assert(s[i].0 < s[s.len() - 1].0);
            }
            lemma_lookup_none(front, p.0);
        }
        assert(to_map(s).dom() =~= to_map(front).dom().insert(p.0));
    }
}

/// The index of the pair with key `k`, if there is one; found by halving.
pub fn pair_find(s: &Vec<(u32, u32)>, k: u32) -> (r: Option<usize>)
    requires
        ascending(s@),
    ensures
        match r {
            Some(i) => i < s.len() && s@[i as int].0 == k && lookup(s@, k) == Some(s@[i as int].1),
            None => lookup(s@, k) is None,
        },
{
    let mut lo: usize = 0;
    let mut hi: usize = s.len();
    while lo < hi
        invariant
            lo <= hi <= s.len(),
            ascending(s@),
            forall|j: int| 0 <= j < lo ==> (#[trigger] s@[j]).0 < k,
            forall|j: int| hi <= j < s.len() ==> (#[trigger] s@[j]).0 > k,
        decreases hi - lo,
    {
        let mid = lo + (hi - lo) / 2;
        let key = s[mid].0;
        if key == k {
            proof {
                lemma_lookup_at(s@, mid as int);
            }
            return Some(mid);
        }
        if key < k {
            proof {
                assert forall|j: int| 0 <= j < mid + 1 implies (#[trigger] s@[j]).0 < k by {
                    if j < mid {
                        assert(s@[j].0 < s@[mid as int].0);
                    }
                }
            }
            lo = mid + 1;
        } else {
            proof {
                assert forall|j: int| mid <= j < s.len() implies (#[trigger] s@[j]).0 > k by {
                    if j > mid {
                        assert(s@[mid as int].0 < s@[j].0);
                    }
                }
            }
            hi = mid;
        }
    }
    proof {
        lemma_lookup_none(s@, k);
    }
    None
}

/// While a list is rebuilt to set `k`: what the pairs written so far give for `q`.
pub open spec fn set_agrees(
    done: Seq<(u32, u32)>,
    placed: bool,
    read: Seq<(u32, u32)>,
    k: u32,
    v: u32,
    q: u32,
) -> bool {
    lookup(done, q) == if q == k {
        if placed {
            Some(v)
        } else {
            None
        }
    } else {
        lookup(read, q)
    }
}

/// The pairs of `prev` with `k` set to `v`.
pub fn pair_insert(prev: &Vec<(u32, u32)>, k: u32, v: u32) -> (out: Vec<(u32, u32)>)
    requires
        ascending(prev@),
    ensures
        ascending(out@),
        forall|q: u32| #[trigger]
            lookup(out@, q) == if q == k {
                Some(v)
            } else {
                lookup(prev@, q)
            },
{
    let mut out: Vec<(u32, u32)> = Vec::new();
    let mut placed: bool = false;
    let mut i: usize = 0;
    while i < prev.len()
        invariant
            i <= prev.len(),
            ascending(prev@),
            ascending(out@),
            forall|a: int, j: int|
                0 <= a < out.len() && i <= j < prev.len() ==> (#[trigger] out@[a]).0 < (
                #[trigger] prev@[j]).0,
            !placed ==> forall|a: int| 0 <= a < out.len() ==> (#[trigger] out@[a]).0 < k,
            placed ==> forall|j: int| i <= j < prev.len() ==> k < (#[trigger] prev@[j]).0,
            forall|q: u32| #[trigger] set_agrees(out@, placed, prev@.take(i as int), k, v, q),
        decreases prev.len() - i,
    {
        let r = prev[i];
        let ghost done0 = out@;
        let ghost placed0 = placed;
        let ghost read0 = prev@.take(i as int);
        if r.0 < k {
            out.push(r);
        } else {
            if !placed {
                out.push((k, v));
                placed = true;
            }
            if r.0 != k {
                out.push(r);
            }
        }
        i += 1;
        proof {
            let read1 = prev@.take(i as int);
            assert(read1 =~= read0.push(r));
            assert forall|j: int| i <= j < prev.len() && placed implies k < (#[trigger] prev@[j]).0 by {
                assert(prev@[i - 1].0 < prev@[j].0);
            }
            assert forall|q: u32| #[trigger] set_agrees(out@, placed, read1, k, v, q) by {
                assert(set_agrees(done0, placed0, read0, k, v, q));
                lemma_lookup_push(read0, r, q);
                lemma_lookup_push(done0, r, q);
                lemma_lookup_push(done0, (k, v), q);
                lemma_lookup_push(done0.push((k, v)), r, q);
                if out@ == done0.push(r) {
                } else if out@ == done0.push((k, v)) {
                } else {
                    assert(out@ == done0.push((k, v)).push(r));
                }
            }
        }
    }
    let ghost done0 = out@;
    if !placed {
        out.push((k, v));
    }
    proof {
        assert(prev@.take(prev.len() as int) =~= prev@);
        assert forall|q: u32| #[trigger]
            lookup(out@, q) == if q == k {
                Some(v)
            } else {
                lookup(prev@, q)
            } by {
            assert(set_agrees(done0, placed, prev@, k, v, q));
            lemma_lookup_push(done0, (k, v), q);
        }
    }
    out
}

/// While a list is rebuilt to drop `k`: what the pairs written so far give for `q`.
pub open spec fn drop_agrees(done: Seq<(u32, u32)>, read: Seq<(u32, u32)>, k: u32, q: u32) -> bool {
    lookup(done, q) == if q == k {
        None
    } else {
        lookup(read, q)
    }
}

/// The pairs of `prev` without the key `k`.
pub fn pair_remove(prev: &Vec<(u32, u32)>, k: u32) -> (out: Vec<(u32, u32)>)
    requires
        ascending(prev@),
    ensures
        ascending(out@),
        forall|q: u32| #[trigger]
            lookup(out@, q) == if q == k {
                None
            } else {
                lookup(prev@, q)
            },
{
    let mut out: Vec<(u32, u32)> = Vec::new();
    let mut i: usize = 0;
    while i < prev.len()
        invariant
            i <= prev.len(),
            ascending(prev@),
            ascending(out@),
            forall|a: int, j: int|
                0 <= a < out.len() && i <= j < prev.len() ==> (#[trigger] out@[a]).0 < (
                #[trigger] prev@[j]).0,
            forall|q: u32| #[trigger] drop_agrees(out@, prev@.take(i as int), k, q),
        decreases prev.len() - i,
    {
        let r = prev[i];
        let ghost done0 = out@;
        let ghost read0 = prev@.take(i as int);
        if r.0 != k {
            out.push(r);
        }
        i += 1;
        proof {
            let read1 = prev@.take(i as int);
            assert(read1 =~= read0.push(r));
            assert forall|q: u32| #[trigger] drop_agrees(out@, read1, k, q) by {
                assert(drop_agrees(done0, read0, k, q));
                lemma_lookup_push(read0, r, q);
                lemma_lookup_push(done0, r, q);
            }
        }
    }
    proof {
        assert(prev@.take(prev.len() as int) =~= prev@);
        assert forall|q: u32| #[trigger]
            lookup(out@, q) == if q == k {
                None
            } else {
                lookup(prev@, q)
            } by {
            assert(drop_agrees(out@, prev@, k, q));
        }
    }
    out
}

/// Tests whether two ascending lists describe the same partial function.
pub fn pairs_equal(a: &Vec<(u32, u32)>, b: &Vec<(u32, u32)>) -> (r: bool)
    requires
        ascending(a@),
        ascending(b@),
    ensures
        r == (to_map(a@) == to_map(b@)),
{
    proof {
        lemma_to_map_len(a@);
        lemma_to_map_len(b@);
    }
    if a.len() != b.len() {
        return false;
    }
    let mut i: usize = 0;
    while i < a.len()
        invariant
            i <= a.len(),
            a.len() == b.len(),
            ascending(a@),
            ascending(b@),
            forall|j: int| 0 <= j < i ==> a@[j] == b@[j],
        decreases a.len() - i,
    {
        let x = a[i];
        let y = b[i];
        if x.0 != y.0 || x.1 != y.1 {
            proof {
                lemma_lookup_at(a@, i as int);
                lemma_lookup_at(b@, i as int);
                if x.0 < y.0 {
                    assert forall|j: int| 0 <= j < b.len() implies (#[trigger] b@[j]).0 != x.0 by {
                        if j < i {
                            assert(a@[j].0 < a@[i as int].0);
                        } else if j > i {
                            assert(b@[i as int].0 < b@[j].0);
                        }
                    }
                    lemma_lookup_none(b@, x.0);
                    assert(to_map(a@).dom().contains(x.0) && !to_map(b@).dom().contains(x.0));
                } else if y.0 < x.0 {
                    assert forall|j: int| 0 <= j < a.len() implies (#[trigger] a@[j]).0 != y.0 by {
                        if j < i {
                            assert(b@[j].0 < b@[i as int].0);
                        } else if j > i {
                            assert(a@[i as int].0 < a@[j].0);
                        }
                    }
                    lemma_lookup_none(a@, y.0);
                    assert(to_map(b@).dom().contains(y.0) && !to_map(a@).dom().contains(y.0));
                } else {
                    assert(to_map(a@).dom().contains(x.0));
                    assert(to_map(a@)[x.0] == x.1 && to_map(b@)[x.0] == y.1);
                }
            }
            return false;
        }
        i += 1;
    }
    proof {
        assert(a@ =~= b@);
    }
    true
}

/// Whether some pair of the list has the value `v`.
pub open spec fn has_value(s: Seq<(u32, u32)>, v: u32) -> bool {
    exists|i: int| 0 <= i < s.len() && (#[trigger] s[i]).1 == v
}

/// Appending a pair adds its value to the values of the list.
pub proof fn lemma_has_value_push(s: Seq<(u32, u32)>, p: (u32, u32), v: u32)
    ensures
        has_value(s.push(p), v) <==> has_value(s, v) || p.1 == v,
{
    let t = s.push(p);
    if has_value(s, v) {
        let i = choose|i: int| 0 <= i < s.len() && (#[trigger] s[i]).1 == v;
        assert(t[i].1 == v);
    }
    if p.1 == v {
        assert(t[s.len() as int].1 == v);
    }
    if has_value(t, v) {
        let i = choose|i: int| 0 <= i < t.len() && (#[trigger] t[i]).1 == v;
        if i < s.len() {
            assert(s[i].1 == v);
        }
    }
}

/// The values of an ascending list are the values of the partial function it describes.
pub proof fn lemma_values(s: Seq<(u32, u32)>, v: u32)
    requires
        ascending(s),
    ensures
        to_map(s).values().contains(v) <==> has_value(s, v),
{
    if has_value(s, v) {
        let i = choose|i: int| 0 <= i < s.len() && (#[trigger] s[i]).1 == v;
        lemma_lookup_at(s, i);
        assert(to_map(s).dom().contains(s[i].0) && to_map(s)[s[i].0] == v);
    }
    if to_map(s).values().contains(v) {
        let k = choose|k: u32| #[trigger] to_map(s).dom().contains(k) && to_map(s)[k] == v;
        lemma_lookup_some(s, k);
        let i = choose|i: int| 0 <= i < s.len() && #[trigger] s[i] == (k, lookup(s, k)->0);
        assert(s[i].1 == v);
    }
}

/// An ascending list and the partial function that it describes hold the same pairs: going
/// from one to the other and back loses nothing and adds nothing, whatever the keys and the
/// values are.
pub proof fn lemma_raw_form_exact(raw: Seq<(u32, u32)>)
    requires
        ascending(raw),
    ensures
        forall|k: u32, v: u32|
            (to_map(raw).contains_key(k) && to_map(raw)[k] == v) <==> #[trigger] raw.contains(
                (k, v),
            ),
        to_map(raw).dom().finite(),
        to_map(raw).dom().len() == raw.len(),
{
    lemma_to_map_len(raw);
    assert forall|k: u32, v: u32|
        (to_map(raw).contains_key(k) && to_map(raw)[k] == v) <==> #[trigger] raw.contains(
            (k, v),
        ) by {
        if to_map(raw).contains_key(k) && to_map(raw)[k] == v {
            lemma_lookup_some(raw, k);
            let i = choose|i: int| 0 <= i < raw.len() && #[trigger] raw[i] == (k, v);
            assert(raw.contains((k, v)));
        }
        if raw.contains((k, v)) {
            let i = choose|i: int| 0 <= i < raw.len() && raw[i] == (k, v);
            lemma_lookup_at(raw, i);
        }
    }
}

} // verus!
