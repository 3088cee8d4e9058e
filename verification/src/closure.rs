//! Which glyphs a subset must hold: everything that the seed glyphs need, and what those
//! need in turn, until nothing new is found.

use crate::flags::NO_LAYOUT_CLOSURE;
use crate::font_face::{
    cmap_in_face, pairs_in_face, rule_in_face, rules_in_face, FontFace, Substitution,
};
use crate::pairs::{ascending, lemma_lookup_at, lemma_lookup_some, to_map};
use crate::subset::{SubsetInput, SubsetInputView};
use vstd::prelude::*;

verus! {

/// Whether the input lets the layout rule take part in the closure: layout closure is on,
/// and the feature and the script of the rule are allowed.
pub open spec fn in_scope(input: SubsetInputView, rule: Substitution) -> bool {
    &&& !input.flags.has(NO_LAYOUT_CLOSURE)
    &&& input.layout_features.contains(rule.feature@)
    &&& input.layout_scripts.contains(rule.script@)
}

/// Whether some code point of `unicodes` selects the glyph `g` in the character map.
pub open spec fn selected(unicodes: Set<u32>, cmap: Map<u32, u32>, g: u32) -> bool {
    exists|c: u32| unicodes.contains(c) && cmap.contains_key(c) && #[trigger] cmap[c] == g
}

/// Whether `g` is a seed of the closure: a glyph of the face that is glyph 0, that the input
/// names, or that a retained code point selects.
pub open spec fn is_seed(input: SubsetInputView, face: &FontFace, g: u32) -> bool {
    g < face.glyphs() && (g == 0 || input.glyphs.contains(g) || selected(
        input.unicodes,
        face.char_map(),
        g,
    ))
}

/// Whether every input glyph of the rule is in `s`.
pub open spec fn fires(rule: Substitution, s: Set<u32>) -> bool {
    forall|j: int| 0 <= j < rule.inputs@.len() ==> s.contains(#[trigger] rule.inputs@[j])
}

/// Whether a glyph of `s` needs `g`.
pub open spec fn needed_by(needs: Seq<(u32, u32)>, s: Set<u32>, g: u32) -> bool {
    exists|i: int| 0 <= i < needs.len() && s.contains((#[trigger] needs[i]).0) && needs[i].1 == g
}

/// Whether a rule in scope, fed from `s` alone, produces `g`.
pub open spec fn produced_by(
    input: SubsetInputView,
    rules: Seq<Substitution>,
    s: Set<u32>,
    g: u32,
) -> bool {
    exists|i: int|
        0 <= i < rules.len() && in_scope(input, #[trigger] rules[i]) && fires(rules[i], s)
            && rules[i].output == g
}

/// Whether `g` follows from the glyphs of `s` in one step.
pub open spec fn follows(input: SubsetInputView, face: &FontFace, s: Set<u32>, g: u32) -> bool {
    needed_by(face.needs(), s, g) || produced_by(input, face.rules(), s, g)
}

/// The glyphs found after `n` rounds: the seeds, and with each round what follows from the
/// glyphs found before.
pub open spec fn reached(input: SubsetInputView, face: &FontFace, n: nat) -> Set<u32>
    decreases n,
{
    if n == 0 {
        Set::new(|g: u32| is_seed(input, face, g))
    } else {
        Set::new(
            |g: u32|
                reached(input, face, (n - 1) as nat).contains(g) || follows(
                    input,
                    face,
                    reached(input, face, (n - 1) as nat),
                    g,
                ),
        )
    }
}

/// Whether the subset must hold `g`: some number of rounds finds it.
pub open spec fn retained(input: SubsetInputView, face: &FontFace, g: u32) -> bool {
    exists|n: nat| #[trigger] reached(input, face, n).contains(g)
}

/// What was found after some round is still there after every later one.
pub proof fn lemma_reached_grows(input: SubsetInputView, face: &FontFace, a: nat, b: nat)
    requires
        a <= b,
    ensures
        reached(input, face, a).subset_of(reached(input, face, b)),
    decreases b - a,
{
    if a < b {
        lemma_reached_grows(input, face, a, (b - 1) as nat);
        assert forall|g: u32| reached(input, face, a).contains(g) implies reached(
            input,
            face,
            b,
        ).contains(g) by {
            assert(reached(input, face, (b - 1) as nat).contains(g));
        }
    }
}

/// Glyphs that the subset must hold are all found after one and the same number of rounds.
pub proof fn lemma_common_round(input: SubsetInputView, face: &FontFace, glyphs: Seq<u32>) -> (n:
    nat)
    requires
        forall|j: int| 0 <= j < glyphs.len() ==> retained(input, face, #[trigger] glyphs[j]),
    ensures
        forall|j: int| 0 <= j < glyphs.len() ==> reached(input, face, n).contains(
            #[trigger] glyphs[j],
        ),
    decreases glyphs.len(),
{
    if glyphs.len() == 0 {
        0
    } else {
        let front = glyphs.drop_last();
        assert forall|j: int| 0 <= j < front.len() implies retained(
            input,
            face,
            #[trigger] front[j],
        ) by {
            assert(front[j] == glyphs[j]);
        }
        let a = lemma_common_round(input, face, front);
        assert(retained(input, face, glyphs[glyphs.len() - 1]));
        let b = choose|b: nat| #[trigger] reached(input, face, b).contains(glyphs.last());
        let n = if a <= b {
            b
        } else {
            a
        };
        lemma_reached_grows(input, face, a, n);
        lemma_reached_grows(input, face, b, n);
        assert forall|j: int| 0 <= j < glyphs.len() implies reached(input, face, n).contains(
            #[trigger] glyphs[j],
        ) by {
            if j < front.len() {
                assert(reached(input, face, a).contains(front[j]));
            }
        }
        n
    }
}

/// What a retained glyph needs is retained.
pub proof fn lemma_need_retained(input: SubsetInputView, face: &FontFace, i: int)
    requires
        0 <= i < face.needs().len(),
        retained(input, face, face.needs()[i].0),
    ensures
        retained(input, face, face.needs()[i].1),
{
    let n = choose|n: nat| #[trigger] reached(input, face, n).contains(face.needs()[i].0);
    let s = reached(input, face, n);
    assert(needed_by(face.needs(), s, face.needs()[i].1));
    assert(reached(input, face, n + 1).contains(face.needs()[i].1));
}

/// What a rule in scope produces from retained glyphs is retained.
pub proof fn lemma_product_retained(input: SubsetInputView, face: &FontFace, i: int)
    requires
        0 <= i < face.rules().len(),
        in_scope(input, face.rules()[i]),
        forall|j: int|
            0 <= j < face.rules()[i].inputs@.len() ==> retained(
                input,
                face,
                #[trigger] face.rules()[i].inputs@[j],
            ),
    ensures
        retained(input, face, face.rules()[i].output),
{
    let rule = face.rules()[i];
    let n = lemma_common_round(input, face, rule.inputs@);
    let s = reached(input, face, n);
    assert(fires(rule, s));
    assert(produced_by(input, face.rules(), s, rule.output));
    assert(reached(input, face, n + 1).contains(rule.output));
}

/// Whether the set `s` holds the seeds and everything that follows from its own glyphs.
pub open spec fn closed_under(input: SubsetInputView, face: &FontFace, s: Set<u32>) -> bool {
    &&& forall|g: u32| is_seed(input, face, g) ==> #[trigger] s.contains(g)
    &&& forall|i: int|
        0 <= i < face.needs().len() && s.contains((#[trigger] face.needs()[i]).0) ==> s.contains(
            face.needs()[i].1,
        )
    &&& forall|i: int|
        0 <= i < face.rules().len() && in_scope(input, #[trigger] face.rules()[i]) && fires(
            face.rules()[i],
            s,
        ) ==> s.contains(face.rules()[i].output)
}

/// A set that holds the seeds and what follows from its own glyphs holds whatever any
/// number of rounds finds.
pub proof fn lemma_reached_within(input: SubsetInputView, face: &FontFace, s: Set<u32>, n: nat)
    requires
        closed_under(input, face, s),
    ensures
        reached(input, face, n).subset_of(s),
    decreases n,
{
    if n > 0 {
        let before = reached(input, face, (n - 1) as nat);
        lemma_reached_within(input, face, s, (n - 1) as nat);
        assert forall|g: u32| reached(input, face, n).contains(g) implies s.contains(g) by {
            if before.contains(g) {
            } else {
                assert(follows(input, face, before, g));
                if needed_by(face.needs(), before, g) {
                    let i = choose|i: int|
                        0 <= i < face.needs().len() && before.contains(
                            (#[trigger] face.needs()[i]).0,
                        ) && face.needs()[i].1 == g;
                    assert(s.contains(face.needs()[i].0));
                } else {
                    let i = choose|i: int|
                        0 <= i < face.rules().len() && in_scope(input, #[trigger] face.rules()[i])
                            && fires(face.rules()[i], before) && face.rules()[i].output == g;
                    let rule = face.rules()[i];
                    assert(fires(rule, s)) by {
                        assert forall|j: int| 0 <= j < rule.inputs@.len() implies s.contains(
                            #[trigger] rule.inputs@[j],
                        ) by {
                            assert(before.contains(rule.inputs@[j]));
                        }
                    }
                }
            }
        }
    }
}

/// How many entries of `s` are true.
pub open spec fn count_true(s: Seq<bool>) -> nat
    decreases s.len(),
{
    if s.len() == 0 {
        0
    } else {
        count_true(s.drop_last()) + if s.last() {
            1nat
        } else {
            0nat
        }
    }
}

/// No more entries are true than there are entries.
pub proof fn lemma_count_bound(s: Seq<bool>)
    ensures
        count_true(s) <= s.len(),
    decreases s.len(),
{
    if s.len() > 0 {
        lemma_count_bound(s.drop_last());
    }
}

/// Turning one false entry true adds one to the count.
pub proof fn lemma_count_set(s: Seq<bool>, i: int)
    requires
        0 <= i < s.len(),
        !s[i],
    ensures
        count_true(s.update(i, true)) == count_true(s) + 1,
    decreases s.len(),
{
    let t = s.update(i, true);
    if i == s.len() - 1 {
        assert(t.drop_last() =~= s.drop_last());
    } else {
        lemma_count_set(s.drop_last(), i);
        assert(t.drop_last() =~= s.drop_last().update(i, true));
    }
}

/// Whether a pair among `pairs` has a code point of `unicodes` and the glyph `g`.
pub open spec fn selected_among(unicodes: Set<u32>, pairs: Seq<(u32, u32)>, g: u32) -> bool {
    exists|j: int| 0 <= j < pairs.len() && unicodes.contains((#[trigger] pairs[j]).0) && pairs[j].1 == g
}

/// Appending a pair adds its glyph to the selected ones when `unicodes` has its code point.
pub proof fn lemma_selected_push(unicodes: Set<u32>, s: Seq<(u32, u32)>, p: (u32, u32), g: u32)
    ensures
        selected_among(unicodes, s.push(p), g) <==> selected_among(unicodes, s, g) || (
        unicodes.contains(p.0) && p.1 == g),
{
    let t = s.push(p);
    if selected_among(unicodes, s, g) {
        let j = choose|j: int|
            0 <= j < s.len() && unicodes.contains((#[trigger] s[j]).0) && s[j].1 == g;
        assert(t[j] == s[j]);
    }
    if unicodes.contains(p.0) && p.1 == g {
        assert(t[s.len() as int] == p);
    }
    if selected_among(unicodes, t, g) {
        let j = choose|j: int|
            0 <= j < t.len() && unicodes.contains((#[trigger] t[j]).0) && t[j].1 == g;
        if j < s.len() {
            assert(s[j] == t[j]);
        }
    }
}

/// The glyphs selected among the pairs of a character map are the glyphs that the map
/// selects.
pub proof fn lemma_selected_map(unicodes: Set<u32>, pairs: Seq<(u32, u32)>, g: u32)
    requires
        ascending(pairs),
    ensures
        selected_among(unicodes, pairs, g) <==> selected(unicodes, to_map(pairs), g),
{
    if selected_among(unicodes, pairs, g) {
        let j = choose|j: int|
            0 <= j < pairs.len() && unicodes.contains((#[trigger] pairs[j]).0) && pairs[j].1 == g;
        lemma_lookup_at(pairs, j);
        assert(to_map(pairs).contains_key(pairs[j].0));
        assert(to_map(pairs)[pairs[j].0] == g);
    }
    if selected(unicodes, to_map(pairs), g) {
        let c = choose|c: u32|
            unicodes.contains(c) && to_map(pairs).contains_key(c) && #[trigger] to_map(pairs)[c]
                == g;
        lemma_lookup_some(pairs, c);
        let j = choose|j: int| 0 <= j < pairs.len() && #[trigger] pairs[j] == (c, g);
        assert(unicodes.contains(pairs[j].0));
    }
}

/// While the seeds are marked: the mark of glyph `a` once the pairs `read` are in.
pub open spec fn seed_agrees(
    keep: Seq<bool>,
    glyphs: Set<u32>,
    unicodes: Set<u32>,
    read: Seq<(u32, u32)>,
    a: int,
) -> bool {
    keep[a] == (a == 0 || glyphs.contains(a as u32) || selected_among(unicodes, read, a as u32))
}

/// Marks the seeds of the closure: one mark for each glyph of the face.
pub fn seed_glyphs(input: &SubsetInput, face: &FontFace) -> (keep: Vec<bool>)
    ensures
        keep.len() == face.glyphs(),
        forall|g: int| 0 <= g < keep.len() ==> #[trigger] keep@[g] == is_seed(input@, face, g as u32),
{
    let count = face.glyph_count();
    let mut keep: Vec<bool> = Vec::new();
    let mut g: usize = 0;
    while g < count
        invariant
            g <= count,
            count == face.glyphs(),
            keep.len() == g,
            forall|a: int|
                0 <= a < g ==> #[trigger] keep@[a] == (a == 0 || input@.glyphs.contains(a as u32)),
        decreases count - g,
    {
        let marked = g == 0 || input.glyphs().contains_raw(g as u32);
        keep.push(marked);
        g += 1;
    }
    let cmap = face.cmap();
    let pairs = cmap.as_raw();
    let mut i: usize = 0;
    proof {
        assert forall|a: int| 0 <= a < keep.len() implies #[trigger] seed_agrees(
            keep@,
            input@.glyphs,
            input@.unicodes,
            pairs@.take(0),
            a,
        ) by {
            assert(!selected_among(input@.unicodes, pairs@.take(0), a as u32));
        }
    }
    while i < pairs.len()
        invariant
            i <= pairs.len(),
            keep.len() == face.glyphs(),
            ascending(pairs@),
            to_map(pairs@) == face.char_map(),
            cmap_in_face(face.glyphs(), face.char_map()),
            forall|a: int|
                0 <= a < keep.len() ==> #[trigger] seed_agrees(
                    keep@,
                    input@.glyphs,
                    input@.unicodes,
                    pairs@.take(i as int),
                    a,
                ),
        decreases pairs.len() - i,
    {
        let p = pairs[i];
        let ghost keep0 = keep@;
        let ghost read0 = pairs@.take(i as int);
        proof {
            lemma_lookup_at(pairs@, i as int);
            assert(face.char_map().contains_key(p.0));
            assert(face.char_map()[p.0] == p.1);
        }
        if input.unicodes().contains_raw(p.0) {
            keep.set(p.1 as usize, true);
        }
        i += 1;
        proof {
            let read1 = pairs@.take(i as int);
            assert(read1 =~= read0.push(p));
            assert forall|a: int| 0 <= a < keep.len() implies #[trigger] seed_agrees(
                keep@,
                input@.glyphs,
                input@.unicodes,
                read1,
                a,
            ) by {
                assert(seed_agrees(keep0, input@.glyphs, input@.unicodes, read0, a));
                lemma_selected_push(input@.unicodes, read0, p, a as u32);
            }
        }
    }
    proof {
        assert(pairs@.take(pairs.len() as int) =~= pairs@);
        assert forall|g: int| 0 <= g < keep.len() implies #[trigger] keep@[g] == is_seed(
            input@,
            face,
            g as u32,
        ) by {
            assert(seed_agrees(keep@, input@.glyphs, input@.unicodes, pairs@, g));
            lemma_selected_map(input@.unicodes, pairs@, g as u32);
        }
    }
    keep
}

/// The glyphs that are marked.
pub open spec fn kept(keep: Seq<bool>) -> Set<u32> {
    Set::new(|g: u32| (g as int) < keep.len() && keep[g as int])
}

/// Whether the marks honour the pair: when its first glyph is marked, so is its second.
pub open spec fn need_met(keep: Seq<bool>, p: (u32, u32)) -> bool {
    keep[p.0 as int] ==> keep[p.1 as int]
}

/// Whether the marks honour the rule: when it is in scope and all its inputs are marked, so
/// is its output.
pub open spec fn rule_met(input: SubsetInputView, keep: Seq<bool>, rule: Substitution) -> bool {
    in_scope(input, rule) && fires(rule, kept(keep)) ==> keep[rule.output as int]
}

/// Tests whether every input glyph of the rule is marked.
fn rule_ready(rule: &Substitution, keep: &Vec<bool>) -> (r: bool)
    requires
        keep.len() <= u32::MAX,
        rule_in_face(keep.len() as u32, *rule),
    ensures
        r == fires(*rule, kept(keep@)),
{
    let mut j: usize = 0;
    while j < rule.inputs.len()
        invariant
            j <= rule.inputs.len(),
            keep.len() <= u32::MAX,
            rule_in_face(keep.len() as u32, *rule),
            forall|a: int| 0 <= a < j ==> kept(keep@).contains(#[trigger] rule.inputs@[a]),
        decreases rule.inputs.len() - j,
    {
        if !keep[rule.inputs[j] as usize] {
            proof {
                assert(!kept(keep@).contains(rule.inputs@[j as int]));
            }
            return false;
        }
        j += 1;
    }
    true
}

/// Tests whether the input lets the rule take part in the closure.
fn rule_allowed(input: &SubsetInput, rule: &Substitution) -> (r: bool)
    ensures
        r == in_scope(input@, *rule),
{
    !input.current_flags().contains(NO_LAYOUT_CLOSURE) && input.layout_features().contains_raw(
        rule.feature.to_u32(),
    ) && input.layout_scripts().contains_raw(rule.script.to_u32())
}

/// Marks the glyphs that the subset must hold: one mark for each glyph of the face.
///
/// Starting from the seeds, it marks what marked glyphs need and what rules in scope make of
/// marked glyphs, round after round, until a round marks nothing new.
pub fn close_glyphs(input: &SubsetInput, face: &FontFace) -> (keep: Vec<bool>)
    ensures
        keep.len() == face.glyphs(),
        forall|g: u32| #[trigger] retained(input@, face, g) <==> kept(keep@).contains(g),
{
    let mut keep = seed_glyphs(input, face);
    let needs = face.dependencies();
    let rules = face.substitutions();
    let mut changed: bool = true;
    proof {
        assert forall|g: int| 0 <= g < keep.len() && keep@[g] implies retained(
            input@,
            face,
            g as u32,
        ) by {
            assert(reached(input@, face, 0).contains(g as u32));
        }
    }
    while changed
        invariant
            keep.len() == face.glyphs(),
            needs@ == face.needs(),
            rules@ == face.rules(),
            pairs_in_face(face.glyphs(), needs@),
            rules_in_face(face.glyphs(), rules@),
            forall|g: int| 0 <= g < keep.len() && #[trigger] keep@[g] ==> retained(input@, face, g as u32),
            forall|g: int|
                0 <= g < keep.len() && is_seed(input@, face, g as u32) ==> #[trigger] keep@[g],
            !changed ==> forall|a: int| 0 <= a < needs.len() ==> need_met(keep@, #[trigger] needs@[a]),
            !changed ==> forall|a: int|
                0 <= a < rules.len() ==> rule_met(input@, keep@, #[trigger] rules@[a]),
        decreases
                keep.len() - count_true(keep@) + if changed {
                    1int
                } else {
                    0int
                },
    {
        changed = false;
        let ghost start = keep@;
        proof {
            lemma_count_bound(start);
        }
        let mut i: usize = 0;
        while i < needs.len()
            invariant
                i <= needs.len(),
                keep.len() == face.glyphs(),
                keep.len() == start.len(),
                needs@ == face.needs(),
                pairs_in_face(face.glyphs(), needs@),
                forall|g: int|
                    0 <= g < keep.len() && #[trigger] keep@[g] ==> retained(input@, face, g as u32),
                forall|g: int|
                    0 <= g < keep.len() && is_seed(input@, face, g as u32) ==> #[trigger] keep@[g],
                changed ==> count_true(keep@) >= count_true(start) + 1,
                !changed ==> keep@ == start,
                !changed ==> forall|a: int| 0 <= a < i ==> need_met(keep@, #[trigger] needs@[a]),
            decreases needs.len() - i,
        {
            let p = needs[i];
            if keep[p.0 as usize] && !keep[p.1 as usize] {
                proof {
                    lemma_count_set(keep@, p.1 as int);
                    lemma_need_retained(input@, face, i as int);
                    lemma_count_grows(start, keep@, changed);
                }
                keep.set(p.1 as usize, true);
                changed = true;
            }
            i += 1;
        }
        let mut j: usize = 0;
        while j < rules.len()
            invariant
                j <= rules.len(),
                keep.len() == face.glyphs(),
                keep.len() == start.len(),
                needs@ == face.needs(),
                rules@ == face.rules(),
                rules_in_face(face.glyphs(), rules@),
                forall|g: int|
                    0 <= g < keep.len() && #[trigger] keep@[g] ==> retained(input@, face, g as u32),
                forall|g: int|
                    0 <= g < keep.len() && is_seed(input@, face, g as u32) ==> #[trigger] keep@[g],
                changed ==> count_true(keep@) >= count_true(start) + 1,
                !changed ==> keep@ == start,
                !changed ==> forall|a: int|
                    0 <= a < needs.len() ==> need_met(keep@, #[trigger] needs@[a]),
                !changed ==> forall|a: int|
                    0 <= a < j ==> rule_met(input@, keep@, #[trigger] rules@[a]),
            decreases rules.len() - j,
        {
            let rule = &rules[j];
            if rule_allowed(input, rule) && rule_ready(rule, &keep) && !keep[rule.output as usize] {
                proof {
                    lemma_count_set(keep@, rule.output as int);
                    assert forall|a: int| 0 <= a < rule.inputs@.len() implies retained(
                        input@,
                        face,
                        #[trigger] face.rules()[j as int].inputs@[a],
                    ) by {
                        assert(kept(keep@).contains(rule.inputs@[a]));
                    }
                    lemma_product_retained(input@, face, j as int);
                    lemma_count_grows(start, keep@, changed);
                }
                keep.set(rule.output as usize, true);
                changed = true;
            }
            j += 1;
        }
        proof {
            lemma_count_bound(keep@);
        }
    }
    proof {
        let s = kept(keep@);
        assert(closed_under(input@, face, s)) by {
            assert forall|i: int|
                0 <= i < face.needs().len() && s.contains(
                    (#[trigger] face.needs()[i]).0,
                ) implies s.contains(face.needs()[i].1) by {
                assert(need_met(keep@, needs@[i]));
            }
            assert forall|i: int|
                0 <= i < face.rules().len() && in_scope(input@, #[trigger] face.rules()[i])
                    && fires(face.rules()[i], s) implies s.contains(face.rules()[i].output) by {
                assert(rule_met(input@, keep@, rules@[i]));
                assert(rule_in_face(face.glyphs(), rules@[i]));
            }
        }
        assert forall|g: u32| #[trigger] retained(input@, face, g) <==> s.contains(g) by {
            if retained(input@, face, g) {
                let n = choose|n: nat| #[trigger] reached(input@, face, n).contains(g);
                lemma_reached_within(input@, face, s, n);
            }
            if s.contains(g) {
                assert(keep@[g as int]);
            }
        }
    }
    keep
}

/// Marks that were added to keep their count at least one above the count at the start.
proof fn lemma_count_grows(start: Seq<bool>, now: Seq<bool>, changed: bool)
    requires
        changed ==> count_true(now) >= count_true(start) + 1,
        !changed ==> now == start,
    ensures
        count_true(now) >= count_true(start),
{
}

} // verus!
