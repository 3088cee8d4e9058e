//! The plan of a subsetting run: which glyphs stay, under which ids, and what becomes of
//! each table.

use crate::blob::Blob;
use crate::closure::{
    close_glyphs, fires, is_seed, kept, lemma_need_retained, reached, retained, selected,
};
use crate::common::Tag;
use crate::error::SubsettingError;
use crate::flags::Flags;
use crate::font_face::{
    cmap_in_face, pairs_in_face, rule_in_face, rules_in_face, FontFace, NameRecord, Substitution,
};
use crate::map::IntMap;
use crate::pairs::{ascending, lemma_lookup_at, lemma_lookup_push, lookup, to_map};
use crate::remap::{
    first_free, first_free_of, is_first_free, is_inverse, is_numbering, lemma_first_free_of_none,
    lemma_first_free_unique, lemma_rank_of_all, new_id, number_glyphs, unmappable,
};
use crate::set::{everything, TagSet, U32Set, SET_VALUE_INVALID};
use crate::subset::{SubsetInput, SubsetInputView};
use vstd::prelude::*;

verus! {

/// What becomes of a table when a face is subset.
#[derive(Clone, Copy, Debug, PartialEq, Eq, Structural)]
pub enum TableAction {
    /// The table is left out of the subset.
    Drop,
    /// The table goes into the subset byte for byte.
    Passthrough,
    /// The table is rewritten for the glyphs and features that stay.
    Subset,
}

/// What the input asks for the table `tag`: a table named for dropping is dropped; else one
/// named for passing through is passed through; every other table is subset.
pub open spec fn action_for(input: SubsetInputView, tag: Tag) -> TableAction {
    if input.drop_tables.contains(tag@) {
        TableAction::Drop
    } else if input.no_subset_tables.contains(tag@) {
        TableAction::Passthrough
    } else {
        TableAction::Subset
    }
}

/// Decides what becomes of the table `tag`.
pub fn table_action(input: &SubsetInput, tag: Tag) -> (r: TableAction)
    ensures
        r == action_for(input@, tag),
{
    if input.drop_tables().contains_raw(tag.to_u32()) {
        TableAction::Drop
    } else if input.no_subset_tables().contains_raw(tag.to_u32()) {
        TableAction::Passthrough
    } else {
        TableAction::Subset
    }
}

/// One mark for each glyph of the face: whether the subset must hold it.
pub open spec fn marks(input: SubsetInputView, face: &FontFace) -> Seq<bool> {
    Seq::new(face.glyphs() as nat, |g: int| retained(input, face, g as u32))
}

/// The character map of the subset before renumbering: the entries of the face's character
/// map whose code point the input retains.
pub open spec fn retained_chars(unicodes: Set<u32>, cmap: Map<u32, u32>) -> Map<u32, u32> {
    Map::new(|c: u32| unicodes.contains(c) && cmap.contains_key(c), |c: u32| cmap[c])
}

/// While the character map is filtered: what the pairs written so far give for `c`.
pub open spec fn chars_agree(
    done: Seq<(u32, u32)>,
    unicodes: Set<u32>,
    read: Seq<(u32, u32)>,
    c: u32,
) -> bool {
    lookup(done, c) == if unicodes.contains(c) {
        lookup(read, c)
    } else {
        None
    }
}

/// The entries of the face's character map whose code point the input retains.
pub fn retain_chars(input: &SubsetInput, face: &FontFace) -> (r: IntMap<char, u32>)
    ensures
        r@ == retained_chars(input@.unicodes, face.char_map()),
{
    let pairs = face.cmap().as_raw();
    let mut out: Vec<(u32, u32)> = Vec::new();
    let mut i: usize = 0;
    while i < pairs.len()
        invariant
            i <= pairs.len(),
            ascending(pairs@),
            ascending(out@),
            forall|a: int, j: int|
                0 <= a < out.len() && i <= j < pairs.len() ==> (#[trigger] out@[a]).0 < (
                #[trigger] pairs@[j]).0,
            forall|c: u32| #[trigger] chars_agree(out@, input@.unicodes, pairs@.take(i as int), c),
        decreases pairs.len() - i,
    {
        let p = pairs[i];
        let ghost done0 = out@;
        let ghost read0 = pairs@.take(i as int);
        if input.unicodes().contains_raw(p.0) {
            out.push(p);
        }
        i += 1;
        proof {
            let read1 = pairs@.take(i as int);
            assert(read1 =~= read0.push(p));
            assert forall|c: u32| #[trigger] chars_agree(out@, input@.unicodes, read1, c) by {
                assert(chars_agree(done0, input@.unicodes, read0, c));
                lemma_lookup_push(read0, p, c);
                lemma_lookup_push(done0, p, c);
            }
        }
    }
    proof {
        assert(pairs@.take(pairs.len() as int) =~= pairs@);
        let want = retained_chars(input@.unicodes, face.char_map());
        assert forall|c: u32| #[trigger] to_map(out@).dom().contains(c) <==> want.dom().contains(
            c,
        ) by {
            assert(chars_agree(out@, input@.unicodes, pairs@, c));
        }
        assert forall|c: u32| to_map(out@).dom().contains(c) implies #[trigger] to_map(out@)[c]
            == want[c] by {
            assert(chars_agree(out@, input@.unicodes, pairs@, c));
        }
        assert(to_map(out@) =~= want);
    }
    IntMap::from_raw(out)
}

/// Decides what becomes of each table of the face, in the order of its table directory.
pub fn table_actions(input: &SubsetInput, face: &FontFace) -> (r: Vec<(Tag, TableAction)>)
    ensures
        r@.len() == face.table_tags().len(),
        forall|i: int|
            0 <= i < r@.len() ==> #[trigger] r@[i] == (
                face.table_tags()[i],
                action_for(input@, face.table_tags()[i]),
            ),
{
    let tags = face.tables();
    let mut out: Vec<(Tag, TableAction)> = Vec::new();
    let mut i: usize = 0;
    while i < tags.len()
        invariant
            i <= tags.len(),
            tags@ == face.table_tags(),
            out.len() == i,
            forall|a: int|
                0 <= a < i ==> #[trigger] out@[a] == (tags@[a], action_for(input@, tags@[a])),
        decreases tags.len() - i,
    {
        let tag = tags[i];
        out.push((tag, table_action(input, tag)));
        i += 1;
    }
    out
}

/// Information about how a subsetting operation will be executed.
///
/// This includes e.g. how glyph ids are mapped from the original font to the subset. A plan
/// is a snapshot: it does not change when the input that it was made from changes.
#[derive(Debug)]
pub struct SubsetPlan<'f> {
    face: &'f FontFace,
    keep: Vec<bool>,
    unicode_to_old_glyph_mapping: IntMap<char, u32>,
    new_to_old_glyph_mapping: IntMap<u32, u32>,
    old_to_new_glyph_mapping: IntMap<u32, u32>,
    table_actions: Vec<(Tag, TableAction)>,
    flags: Flags,
    name_ids: U32Set,
    layout_features: TagSet,
    layout_scripts: TagSet,
}

impl<'f> SubsetPlan<'f> {
    #[verifier::type_invariant]
    spec fn inv(self) -> bool {
        &&& self.keep@.len() == self.face.glyphs()
        &&& forall|g: u32| #[trigger]
            self.old_to_new_glyph_mapping@.contains_key(g) <==> ((g as int) < self.keep@.len()
                && self.keep@[g as int])
        &&& forall|c: u32|
            self.unicode_to_old_glyph_mapping@.contains_key(c) ==> kept(self.keep@).contains(
                #[trigger] self.unicode_to_old_glyph_mapping@[c],
            )
        &&& forall|i: int|
            0 <= i < self.face.needs().len() && kept(self.keep@).contains(
                (#[trigger] self.face.needs()[i]).0,
            ) ==> kept(self.keep@).contains(self.face.needs()[i].1)
    }

    /// The face that the plan was made for.
    pub closed spec fn source(&self) -> &FontFace {
        self.face
    }

    /// One mark for each glyph of the face: whether the subset holds it.
    pub closed spec fn kept_marks(&self) -> Seq<bool> {
        self.keep@
    }

    /// The retained code points with the glyph of the original font that each selects.
    pub closed spec fn unicode_to_old(&self) -> Map<u32, u32> {
        self.unicode_to_old_glyph_mapping@
    }

    /// The glyph ids of the subset with the glyph of the original font behind each.
    pub closed spec fn new_to_old(&self) -> Map<u32, u32> {
        self.new_to_old_glyph_mapping@
    }

    /// The retained glyphs of the original font with the id of each in the subset.
    pub closed spec fn old_to_new(&self) -> Map<u32, u32> {
        self.old_to_new_glyph_mapping@
    }

    /// What becomes of each table of the face, in the order of its table directory.
    pub closed spec fn actions(&self) -> Seq<(Tag, TableAction)> {
        self.table_actions@
    }

    /// Whether the plan is the one that `input` asks for on `face`.
    pub open spec fn made_for(&self, input: SubsetInputView, face: &FontFace) -> bool {
        &&& self.source() == face
        &&& self.kept_marks() == marks(input, face)
        &&& self.unicode_to_old() == retained_chars(input.unicodes, face.char_map())
        &&& is_numbering(self.old_to_new(), input.flags, input.glyph_map, marks(input, face))
        &&& is_inverse(self.new_to_old(), self.old_to_new())
        &&& self.actions().len() == face.table_tags().len()
        &&& forall|i: int|
            0 <= i < self.actions().len() ==> #[trigger] self.actions()[i] == (
                face.table_tags()[i],
                action_for(input, face.table_tags()[i]),
            )
        &&& self.kept_name_ids() == input.name_ids
        &&& self.allowed_features() == input.layout_features
        &&& self.allowed_scripts() == input.layout_scripts
        &&& self.switches() == input.flags
    }

    /// Computes the plan for subsetting `face` as `input` asks.
    ///
    /// Fails, with no plan at all, exactly when the glyphs that the subset must hold cannot
    /// be numbered as the input asks.
    pub fn create(input: &SubsetInput, face: &'f FontFace) -> (r: Result<Self, SubsettingError>)
        ensures
            r is Err <==> unmappable(input@.flags, input@.glyph_map, marks(input@, face)),
            r matches Ok(plan) ==> plan.made_for(input@, face),
    {
        let keep = close_glyphs(input, face);
        proof {
            assert(keep@ =~= marks(input@, face)) by {
                assert forall|g: int| 0 <= g < keep@.len() implies keep@[g] == marks(
                    input@,
                    face,
                )[g] by {
                    assert(retained(input@, face, g as u32) <==> kept(keep@).contains(g as u32));
                }
            }
        }
        let (old_to_new, new_to_old) = match number_glyphs(
            input.current_flags(),
            input.glyph_mapping(),
            &keep,
        ) {
            Ok(maps) => maps,
            Err(e) => {
                return Err(e);
            },
        };
        let unicode_to_old = retain_chars(input, face);
        let _ = face.cmap();
        proof {
            assert forall|c: u32| unicode_to_old@.contains_key(c) implies kept(keep@).contains(
                #[trigger] unicode_to_old@[c],
            ) by {
                let g = face.char_map()[c];
                assert(selected(input@.unicodes, face.char_map(), g));
                assert(is_seed(input@, face, g));
                assert(reached(input@, face, 0).contains(g));
                assert(retained(input@, face, g));
            }
            assert forall|i: int|
                0 <= i < face.needs().len() && kept(keep@).contains(
                    (#[trigger] face.needs()[i]).0,
                ) implies kept(keep@).contains(face.needs()[i].1) by {
                assert(retained(input@, face, face.needs()[i].0));
                lemma_need_retained(input@, face, i);
            }
        }
        Ok(
            SubsetPlan {
                face,
                keep,
                unicode_to_old_glyph_mapping: unicode_to_old,
                new_to_old_glyph_mapping: new_to_old,
                old_to_new_glyph_mapping: old_to_new,
                table_actions: table_actions(input, face),
                flags: input.current_flags(),
                name_ids: input.name_ids().clone_static(),
                layout_features: input.layout_features().clone_static(),
                layout_scripts: input.layout_scripts().clone_static(),
            },
        )
    }

    /// Returns the mapping between codepoints in the original font and the associated glyph
    /// id in the original font.
    pub fn unicode_to_old_glyph_mapping(&self) -> (r: &IntMap<char, u32>)
        ensures
            r@ == self.unicode_to_old(),
    {
        &self.unicode_to_old_glyph_mapping
    }

    /// Returns the mapping between glyphs in the subset that will be produced by plan and the
    /// glyph in the original font.
    pub fn new_to_old_glyph_mapping(&self) -> (r: &IntMap<u32, u32>)
        ensures
            r@ == self.new_to_old(),
    {
        &self.new_to_old_glyph_mapping
    }

    /// Returns the mapping between glyphs in the original font to glyphs in the subset that
    /// will be produced by plan.
    pub fn old_to_new_glyph_mapping(&self) -> (r: &IntMap<u32, u32>)
        ensures
            r@ == self.old_to_new(),
    {
        &self.old_to_new_glyph_mapping
    }

    /// Returns the switches that the plan was made under, for those who write the tables.
    pub fn flags(&self) -> (r: Flags)
        ensures
            r == self.switches(),
    {
        self.flags
    }

    /// Returns what becomes of each table of the face, in the order of its table directory.
    pub fn table_plan(&self) -> (r: &Vec<(Tag, TableAction)>)
        ensures
            r@ == self.actions(),
    {
        &self.table_actions
    }
}

/// The character map of the subset: each retained code point with the new id of its glyph.
pub open spec fn subset_chars(unicode_to_old: Map<u32, u32>, old_to_new: Map<u32, u32>) -> Map<
    u32,
    u32,
> {
    Map::new(|c: u32| unicode_to_old.contains_key(c), |c: u32| old_to_new[unicode_to_old[c]])
}

/// What the glyphs of the subset need of each other: the pairs whose first glyph stays, in
/// their order and under the new ids.
pub open spec fn subset_needs(
    needs: Seq<(u32, u32)>,
    keep: Seq<bool>,
    old_to_new: Map<u32, u32>,
) -> Seq<(u32, u32)>
    decreases needs.len(),
{
    if needs.len() == 0 {
        Seq::empty()
    } else {
        let rest = subset_needs(needs.drop_last(), keep, old_to_new);
        let p = needs.last();
        if kept(keep).contains(p.0) {
            rest.push((old_to_new[p.0], old_to_new[p.1]))
        } else {
            rest
        }
    }
}

/// A layout rule as plain values.
pub struct RuleView {
    /// The script under which the rule applies.
    pub script: Tag,
    /// The feature that the rule implements.
    pub feature: Tag,
    /// The glyphs that the rule consumes, in order.
    pub inputs: Seq<u32>,
    /// The glyph that the rule produces.
    pub output: u32,
}

/// The rule as plain values.
pub open spec fn rule_view(rule: Substitution) -> RuleView {
    RuleView {
        script: rule.script,
        feature: rule.feature,
        inputs: rule.inputs@,
        output: rule.output,
    }
}

/// The rules as plain values.
pub open spec fn rule_views(rules: Seq<Substitution>) -> Seq<RuleView> {
    Seq::new(rules.len(), |i: int| rule_view(rules[i]))
}

/// Whether the rule stays in the subset: its feature and its script are allowed, and every
/// glyph that it names stays.
pub open spec fn survives(
    rule: Substitution,
    features: Set<u32>,
    scripts: Set<u32>,
    keep: Seq<bool>,
) -> bool {
    &&& features.contains(rule.feature@)
    &&& scripts.contains(rule.script@)
    &&& kept(keep).contains(rule.output)
    &&& fires(rule, kept(keep))
}

/// The rule under the new glyph ids.
pub open spec fn renumbered(rule: Substitution, old_to_new: Map<u32, u32>) -> RuleView {
    RuleView {
        script: rule.script,
        feature: rule.feature,
        inputs: Seq::new(rule.inputs@.len(), |j: int| old_to_new[rule.inputs@[j]]),
        output: old_to_new[rule.output],
    }
}

/// The layout rules of the subset: the rules that stay, in their order and under the new
/// ids.
pub open spec fn subset_rules(
    rules: Seq<Substitution>,
    features: Set<u32>,
    scripts: Set<u32>,
    keep: Seq<bool>,
    old_to_new: Map<u32, u32>,
) -> Seq<RuleView>
    decreases rules.len(),
{
    if rules.len() == 0 {
        Seq::empty()
    } else {
        let rest = subset_rules(rules.drop_last(), features, scripts, keep, old_to_new);
        if survives(rules.last(), features, scripts, keep) {
            rest.push(renumbered(rules.last(), old_to_new))
        } else {
            rest
        }
    }
}

/// A name record as plain values: its name id, the tag of its language, its text.
pub open spec fn name_view(record: NameRecord) -> (u32, Seq<char>, Seq<char>) {
    (record.name_id, record.language@, record.text@)
}

/// The name records as plain values.
pub open spec fn name_views(records: Seq<NameRecord>) -> Seq<(u32, Seq<char>, Seq<char>)> {
    Seq::new(records.len(), |i: int| name_view(records[i]))
}

/// The name records of the subset: those whose name id is retained, in their order.
pub open spec fn subset_names(records: Seq<NameRecord>, name_ids: Set<u32>) -> Seq<
    (u32, Seq<char>, Seq<char>),
>
    decreases records.len(),
{
    if records.len() == 0 {
        Seq::empty()
    } else {
        let rest = subset_names(records.drop_last(), name_ids);
        if name_ids.contains(records.last().name_id) {
            rest.push(name_view(records.last()))
        } else {
            rest
        }
    }
}

/// The tables of the subset: the tables that are not dropped, in their order.
pub open spec fn subset_tables(actions: Seq<(Tag, TableAction)>) -> Seq<Tag>
    decreases actions.len(),
{
    if actions.len() == 0 {
        Seq::empty()
    } else {
        let rest = subset_tables(actions.drop_last());
        if actions.last().1 == TableAction::Drop {
            rest
        } else {
            rest.push(actions.last().0)
        }
    }
}

/// The new id of a glyph that has one.
fn new_id_of(old_to_new: &IntMap<u32, u32>, g: u32) -> (r: u32)
    requires
        old_to_new@.contains_key(g),
    ensures
        r == old_to_new@[g],
{
    match old_to_new.get(g) {
        Some(n) => n,
        None => 0,
    }
}

/// While the character map is renumbered: what the pairs written so far give for `c`.
pub open spec fn renumber_agrees(
    done: Seq<(u32, u32)>,
    read: Seq<(u32, u32)>,
    old_to_new: Map<u32, u32>,
    c: u32,
) -> bool {
    lookup(done, c) == match lookup(read, c) {
        Some(g) => Some(old_to_new[g]),
        None => None,
    }
}

/// The tables that are not dropped, in their order.
fn tables_kept(actions: &Vec<(Tag, TableAction)>) -> (r: Vec<Tag>)
    ensures
        r@ == subset_tables(actions@),
{
    let mut out: Vec<Tag> = Vec::new();
    let mut i: usize = 0;
    while i < actions.len()
        invariant
            i <= actions.len(),
            out@ == subset_tables(actions@.take(i as int)),
        decreases actions.len() - i,
    {
        let a = actions[i];
        proof {
            assert(actions@.take(i + 1).drop_last() =~= actions@.take(i as int));
        }
        match a.1 {
            TableAction::Drop => {},
            _ => {
                out.push(a.0);
            },
        }
        i += 1;
    }
    proof {
        assert(actions@.take(actions.len() as int) =~= actions@);
    }
    out
}

/// The name records whose name id is in `name_ids`, in their order.
fn names_kept(records: &Vec<NameRecord>, name_ids: &U32Set) -> (r: Vec<NameRecord>)
    ensures
        name_views(r@) == subset_names(records@, name_ids@),
{
    let mut out: Vec<NameRecord> = Vec::new();
    let mut i: usize = 0;
    proof {
        assert(name_views(out@) =~= subset_names(records@.take(0), name_ids@));
    }
    while i < records.len()
        invariant
            i <= records.len(),
            name_views(out@) == subset_names(records@.take(i as int), name_ids@),
        decreases records.len() - i,
    {
        let record = &records[i];
        let ghost out0 = out@;
        proof {
            assert(records@.take(i + 1).drop_last() =~= records@.take(i as int));
        }
        if name_ids.contains_raw(record.name_id) {
            let copy = NameRecord {
                name_id: record.name_id,
                language: record.language.clone(),
                text: record.text.clone(),
            };
            out.push(copy);
            proof {
                assert(name_views(out@) =~= name_views(out0).push(name_view(*record)));
            }
        }
        i += 1;
    }
    proof {
        assert(records@.take(records.len() as int) =~= records@);
    }
    out
}

/// Whether every value of `old_to_new` lies below `total`.
pub open spec fn ids_below(old_to_new: Map<u32, u32>, total: int) -> bool {
    forall|g: u32| old_to_new.contains_key(g) ==> #[trigger] old_to_new[g] < total
}

/// Whether `old_to_new` has a new id for exactly the marked glyphs.
pub open spec fn numbers_kept(old_to_new: Map<u32, u32>, keep: Seq<bool>) -> bool {
    forall|g: u32| #[trigger] old_to_new.contains_key(g) <==> kept(keep).contains(g)
}

/// The character map under the new glyph ids.
fn chars_renumbered(
    unicode_to_old: &IntMap<char, u32>,
    old_to_new: &IntMap<u32, u32>,
    Ghost(keep): Ghost<Seq<bool>>,
    total: u32,
) -> (r: IntMap<char, u32>)
    requires
        numbers_kept(old_to_new@, keep),
        ids_below(old_to_new@, total as int),
        forall|c: u32|
            unicode_to_old@.contains_key(c) ==> kept(keep).contains(#[trigger] unicode_to_old@[c]),
    ensures
        r@ == subset_chars(unicode_to_old@, old_to_new@),
        cmap_in_face(total, r@),
{
    let pairs = unicode_to_old.as_raw();
    let mut out: Vec<(u32, u32)> = Vec::new();
    let mut i: usize = 0;
    while i < pairs.len()
        invariant
            i <= pairs.len(),
            ascending(pairs@),
            to_map(pairs@) == unicode_to_old@,
            numbers_kept(old_to_new@, keep),
            forall|c: u32|
                unicode_to_old@.contains_key(c) ==> kept(keep).contains(
                    #[trigger] unicode_to_old@[c],
                ),
            out.len() == i,
            forall|a: int| 0 <= a < i ==> (#[trigger] out@[a]).0 == pairs@[a].0,
            forall|c: u32| #[trigger]
                renumber_agrees(out@, pairs@.take(i as int), old_to_new@, c),
        decreases pairs.len() - i,
    {
        let p = pairs[i];
        let ghost done0 = out@;
        let ghost read0 = pairs@.take(i as int);
        proof {
            lemma_lookup_at(pairs@, i as int);
            assert(unicode_to_old@.contains_key(p.0) && unicode_to_old@[p.0] == p.1);
            assert(kept(keep).contains(p.1));
            assert(old_to_new@.contains_key(p.1));
        }
        let n = new_id_of(old_to_new, p.1);
        out.push((p.0, n));
        i += 1;
        proof {
            let read1 = pairs@.take(i as int);
            assert(read1 =~= read0.push(p));
            assert forall|c: u32| #[trigger] renumber_agrees(out@, read1, old_to_new@, c) by {
                assert(renumber_agrees(done0, read0, old_to_new@, c));
                lemma_lookup_push(read0, p, c);
                lemma_lookup_push(done0, (p.0, n), c);
            }
        }
    }
    proof {
        assert(pairs@.take(pairs.len() as int) =~= pairs@);
        assert(ascending(out@)) by {
            assert forall|a: int, b: int| 0 <= a < b < out@.len() implies (#[trigger] out@[a]).0 < (
            #[trigger] out@[b]).0 by {
                assert(pairs@[a].0 < pairs@[b].0);
            }
        }
        let want = subset_chars(unicode_to_old@, old_to_new@);
        assert forall|c: u32| #[trigger] to_map(out@).dom().contains(c) <==> want.dom().contains(
            c,
        ) by {
            assert(renumber_agrees(out@, pairs@, old_to_new@, c));
        }
        assert forall|c: u32| to_map(out@).dom().contains(c) implies #[trigger] to_map(out@)[c]
            == want[c] by {
            assert(renumber_agrees(out@, pairs@, old_to_new@, c));
        }
        assert(to_map(out@) =~= want);
        assert forall|c: u32| want.contains_key(c) implies #[trigger] want[c] < total by {
            assert(old_to_new@.contains_key(unicode_to_old@[c]));
        }
    }
    IntMap::from_raw(out)
}

/// What the glyphs of the subset need of each other, under the new glyph ids.
fn needs_renumbered(
    needs: &Vec<(u32, u32)>,
    keep: &Vec<bool>,
    old_to_new: &IntMap<u32, u32>,
    total: u32,
) -> (r: Vec<(u32, u32)>)
    requires
        keep.len() <= u32::MAX,
        pairs_in_face(keep.len() as u32, needs@),
        numbers_kept(old_to_new@, keep@),
        ids_below(old_to_new@, total as int),
        forall|i: int|
            0 <= i < needs.len() && kept(keep@).contains((#[trigger] needs@[i]).0) ==> kept(
                keep@,
            ).contains(needs@[i].1),
    ensures
        r@ == subset_needs(needs@, keep@, old_to_new@),
        pairs_in_face(total, r@),
{
    let mut out: Vec<(u32, u32)> = Vec::new();
    let mut i: usize = 0;
    while i < needs.len()
        invariant
            i <= needs.len(),
            keep.len() <= u32::MAX,
            pairs_in_face(keep.len() as u32, needs@),
            numbers_kept(old_to_new@, keep@),
            ids_below(old_to_new@, total as int),
            forall|a: int|
                0 <= a < needs.len() && kept(keep@).contains((#[trigger] needs@[a]).0) ==> kept(
                    keep@,
                ).contains(needs@[a].1),
            out@ == subset_needs(needs@.take(i as int), keep@, old_to_new@),
            pairs_in_face(total, out@),
        decreases needs.len() - i,
    {
        let p = needs[i];
        proof {
            assert(needs@.take(i + 1).drop_last() =~= needs@.take(i as int));
            assert(needs@[i as int].0 < keep.len());
        }
        if keep[p.0 as usize] {
            proof {
                assert(kept(keep@).contains(p.0));
                assert(kept(keep@).contains(needs@[i as int].1));
                assert(old_to_new@.contains_key(p.0));
                assert(old_to_new@.contains_key(p.1));
            }
            let a = new_id_of(old_to_new, p.0);
            let b = new_id_of(old_to_new, p.1);
            out.push((a, b));
        }
        i += 1;
    }
    proof {
        assert(needs@.take(needs.len() as int) =~= needs@);
    }
    out
}

/// Tests whether the rule stays in the subset.
fn rule_survives(rule: &Substitution, features: &TagSet, scripts: &TagSet, keep: &Vec<bool>) -> (r:
    bool)
    requires
        keep.len() <= u32::MAX,
        rule_in_face(keep.len() as u32, *rule),
    ensures
        r == survives(*rule, features@, scripts@, keep@),
{
    if !features.contains_raw(rule.feature.to_u32()) {
        return false;
    }
    if !scripts.contains_raw(rule.script.to_u32()) {
        return false;
    }
    if !keep[rule.output as usize] {
        return false;
    }
    let mut j: usize = 0;
    while j < rule.inputs.len()
        invariant
            j <= rule.inputs.len(),
            keep.len() <= u32::MAX,
            rule_in_face(keep.len() as u32, *rule),
            forall|a: int| 0 <= a < j ==> kept(keep@).contains(#[trigger] rule.inputs@[a]),
        decreases rule.inputs.len() - j,
    {
        if !keep[rule.inputs[j] as usize] {
            proof {
                assert(!kept(keep@).contains(rule.inputs@[j as int]));
            }
            return false;
        }
        j += 1;
    }
    true
}

/// The rule under the new glyph ids.
fn rule_renumbered(
    rule: &Substitution,
    old_to_new: &IntMap<u32, u32>,
    Ghost(keep): Ghost<Seq<bool>>,
    total: u32,
) -> (r: Substitution)
    requires
        numbers_kept(old_to_new@, keep),
        ids_below(old_to_new@, total as int),
        kept(keep).contains(rule.output),
        fires(*rule, kept(keep)),
    ensures
        rule_view(r) == renumbered(*rule, old_to_new@),
        rule_in_face(total, r),
{
    let mut inputs: Vec<u32> = Vec::new();
    let mut j: usize = 0;
    while j < rule.inputs.len()
        invariant
            j <= rule.inputs.len(),
            numbers_kept(old_to_new@, keep),
            ids_below(old_to_new@, total as int),
            fires(*rule, kept(keep)),
            inputs.len() == j,
            forall|a: int| 0 <= a < j ==> #[trigger] inputs@[a] == old_to_new@[rule.inputs@[a]],
            forall|a: int| 0 <= a < j ==> #[trigger] inputs@[a] < total,
        decreases rule.inputs.len() - j,
    {
        proof {
            assert(kept(keep).contains(rule.inputs@[j as int]));
            assert(old_to_new@.contains_key(rule.inputs@[j as int]));
        }
        let n = new_id_of(old_to_new, rule.inputs[j]);
        inputs.push(n);
        j += 1;
    }
    proof {
        assert(old_to_new@.contains_key(rule.output));
    }
    let output = new_id_of(old_to_new, rule.output);
    let r = Substitution { script: rule.script, feature: rule.feature, inputs, output };
    proof {
        assert(rule_view(r).inputs =~= renumbered(*rule, old_to_new@).inputs);
    }
    r
}

/// The layout rules of the subset, under the new glyph ids.
fn rules_renumbered(
    rules: &Vec<Substitution>,
    features: &TagSet,
    scripts: &TagSet,
    keep: &Vec<bool>,
    old_to_new: &IntMap<u32, u32>,
    total: u32,
) -> (r: Vec<Substitution>)
    requires
        keep.len() <= u32::MAX,
        rules_in_face(keep.len() as u32, rules@),
        numbers_kept(old_to_new@, keep@),
        ids_below(old_to_new@, total as int),
    ensures
        rule_views(r@) == subset_rules(rules@, features@, scripts@, keep@, old_to_new@),
        rules_in_face(total, r@),
{
    let mut out: Vec<Substitution> = Vec::new();
    let mut i: usize = 0;
    proof {
        assert(rule_views(out@) =~= subset_rules(
            rules@.take(0),
            features@,
            scripts@,
            keep@,
            old_to_new@,
        ));
    }
    while i < rules.len()
        invariant
            i <= rules.len(),
            keep.len() <= u32::MAX,
            rules_in_face(keep.len() as u32, rules@),
            numbers_kept(old_to_new@, keep@),
            ids_below(old_to_new@, total as int),
            rule_views(out@) == subset_rules(
                rules@.take(i as int),
                features@,
                scripts@,
                keep@,
                old_to_new@,
            ),
            rules_in_face(total, out@),
        decreases rules.len() - i,
    {
        let rule = &rules[i];
        let ghost out0 = out@;
        proof {
            assert(rules@.take(i + 1).drop_last() =~= rules@.take(i as int));
            assert(rule_in_face(keep.len() as u32, rules@[i as int]));
        }
        if rule_survives(rule, features, scripts, keep) {
            let made = rule_renumbered(rule, old_to_new, Ghost(keep@), total);
            out.push(made);
            proof {
                assert(rule_views(out@) =~= rule_views(out0).push(rule_view(made)));
                assert forall|a: int| 0 <= a < out@.len() implies rule_in_face(
                    total,
                    #[trigger] out@[a],
                ) by {
                    if a < out0.len() {
                        assert(out@[a] == out0[a]);
                    }
                }
            }
        }
        i += 1;
    }
    proof {
        assert(rules@.take(rules.len() as int) =~= rules@);
    }
    out
}

impl<'f> SubsetPlan<'f> {
    /// The switches that the plan was made under.
    pub closed spec fn switches(&self) -> Flags {
        self.flags
    }

    /// The name ids whose records the subset holds.
    pub closed spec fn kept_name_ids(&self) -> Set<u32> {
        self.name_ids@
    }

    /// The tags of the layout features that the subset may hold.
    pub closed spec fn allowed_features(&self) -> Set<u32> {
        self.layout_features@
    }

    /// The tags of the layout scripts that the subset may hold.
    pub closed spec fn allowed_scripts(&self) -> Set<u32> {
        self.layout_scripts@
    }

    /// Whether `made` is the face that executing the plan gives.
    pub open spec fn gives(&self, made: &FontFace) -> bool {
        &&& made.glyphs() == first_free(self.old_to_new())
        &&& made.char_map() == subset_chars(self.unicode_to_old(), self.old_to_new())
        &&& made.needs() == subset_needs(
            self.source().needs(),
            self.kept_marks(),
            self.old_to_new(),
        )
        &&& rule_views(made.rules()) == subset_rules(
            self.source().rules(),
            self.allowed_features(),
            self.allowed_scripts(),
            self.kept_marks(),
            self.old_to_new(),
        )
        &&& name_views(made.name_records()) == subset_names(
            self.source().name_records(),
            self.kept_name_ids(),
        )
        &&& made.table_tags() == subset_tables(self.actions())
        &&& made.bytes() == Seq::<u8>::empty()
    }

    /// Executes the subsetting plan.
    ///
    /// The new face has one glyph for each id up to the greatest new id, the retained code
    /// points, and the dependencies, layout rules, names and tables that stay, all under the
    /// new glyph ids. It was put together, not read, so it has no bytes. Fails, with no face
    /// at all, exactly when the number of glyphs of the subset does not fit in `u32`.
    pub fn subset(&self) -> (r: Result<FontFace, SubsettingError>)
        ensures
            r is Err <==> first_free(self.old_to_new()) > u32::MAX,
            r matches Ok(made) ==> self.gives(&made),
    {
        proof {
            use_type_invariant(self);
        }
        let first = first_free_of(&self.old_to_new_glyph_mapping);
        if first > u32::MAX as u64 {
            return Err(SubsettingError);
        }
        let total: u32 = first as u32;
        proof {
            assert(ids_below(self.old_to_new_glyph_mapping@, total as int)) by {
                assert forall|g: u32|
                    self.old_to_new_glyph_mapping@.contains_key(g) implies #[trigger] self.old_to_new_glyph_mapping@[g]
                    < total by {
                    assert(self.old_to_new_glyph_mapping@.values().contains(
                        self.old_to_new_glyph_mapping@[g],
                    ));
                }
            }
            assert(numbers_kept(self.old_to_new_glyph_mapping@, self.keep@));
        }
        let needs = self.face.dependencies();
        let rules = self.face.substitutions();
        let cmap = chars_renumbered(
            &self.unicode_to_old_glyph_mapping,
            &self.old_to_new_glyph_mapping,
            Ghost(self.keep@),
            total,
        );
        let new_needs = needs_renumbered(needs, &self.keep, &self.old_to_new_glyph_mapping, total);
        let new_rules = rules_renumbered(
            rules,
            &self.layout_features,
            &self.layout_scripts,
            &self.keep,
            &self.old_to_new_glyph_mapping,
            total,
        );
        let names = names_kept(self.face.names(), &self.name_ids);
        let tables = tables_kept(&self.table_actions);
        match FontFace::from_parts(Blob::empty(), tables, total, cmap, new_needs, new_rules, names) {
            Ok(made) => Ok(made),
            Err(_) => Err(SubsettingError),
        }
    }
}

impl SubsetInput {
    /// Computes a plan for subsetting the supplied face according to a provided input.
    ///
    /// The plan describes which tables and glyphs should be retained. Fails, with no plan at
    /// all, exactly when the glyphs that the subset must hold cannot be numbered as the input
    /// asks: the retain switch is on although new ids were asked for, a new id does not fit in
    /// `u32`, or two glyphs would share a new id.
    pub fn plan<'f>(&self, font: &'f FontFace) -> (r: Result<SubsetPlan<'f>, SubsettingError>)
        ensures
            r is Err <==> unmappable(self@.flags, self@.glyph_map, marks(self@, font)),
            r matches Ok(plan) ==> plan.made_for(self@, font),
    {
        SubsetPlan::create(self, font)
    }

    /// Subsets a font according to provided input.
    ///
    /// Fails exactly when no plan exists or the plan cannot be executed.
    pub fn subset_font(&self, font: &FontFace) -> (r: Result<FontFace, SubsettingError>)
        ensures
            unmappable(self@.flags, self@.glyph_map, marks(self@, font)) ==> r is Err,
            r matches Ok(made) ==> exists|plan: SubsetPlan|
                #[trigger] plan.made_for(self@, font) && plan.gives(&made),
            r is Err && !unmappable(self@.flags, self@.glyph_map, marks(self@, font))
                ==> exists|plan: SubsetPlan|
                #[trigger] plan.made_for(self@, font) && first_free(plan.old_to_new()) > u32::MAX,
    {
        match self.plan(font) {
            Ok(plan) => plan.subset(),
            Err(e) => Err(e),
        }
    }
}

/// The tag under which a rule counts: its script, or else its feature.
pub open spec fn tag_of(rule: Substitution, by_script: bool) -> u32 {
    if by_script {
        rule.script@
    } else {
        rule.feature@
    }
}

/// Whether a rule that stays in the subset carries the tag `t`.
pub open spec fn tag_stays(
    rules: Seq<Substitution>,
    features: Set<u32>,
    scripts: Set<u32>,
    keep: Seq<bool>,
    by_script: bool,
    t: u32,
) -> bool {
    exists|i: int|
        0 <= i < rules.len() && survives(#[trigger] rules[i], features, scripts, keep) && tag_of(
            rules[i],
            by_script,
        ) == t
}

/// One more rule adds its tag to the tags that stay when the rule itself stays.
pub proof fn lemma_tag_stays_push(
    rules: Seq<Substitution>,
    rule: Substitution,
    features: Set<u32>,
    scripts: Set<u32>,
    keep: Seq<bool>,
    by_script: bool,
    t: u32,
)
    ensures
        tag_stays(rules.push(rule), features, scripts, keep, by_script, t) <==> tag_stays(
            rules,
            features,
            scripts,
            keep,
            by_script,
            t,
        ) || (survives(rule, features, scripts, keep) && tag_of(rule, by_script) == t),
{
    let more = rules.push(rule);
    if tag_stays(rules, features, scripts, keep, by_script, t) {
        let i = choose|i: int|
            0 <= i < rules.len() && survives(#[trigger] rules[i], features, scripts, keep)
                && tag_of(rules[i], by_script) == t;
        assert(more[i] == rules[i]);
    }
    if survives(rule, features, scripts, keep) && tag_of(rule, by_script) == t {
        assert(more[rules.len() as int] == rule);
    }
    if tag_stays(more, features, scripts, keep, by_script, t) {
        let i = choose|i: int|
            0 <= i < more.len() && survives(#[trigger] more[i], features, scripts, keep) && tag_of(
                more[i],
                by_script,
            ) == t;
        if i < rules.len() {
            assert(rules[i] == more[i]);
        }
    }
}

/// While the tags that stay are gathered: the set so far holds `t` exactly when a rule
/// read so far stays and carries it, and `t` is not the invalid value.
pub open spec fn tags_agree(
    done: Set<u32>,
    read: Seq<Substitution>,
    features: Set<u32>,
    scripts: Set<u32>,
    keep: Seq<bool>,
    by_script: bool,
    t: u32,
) -> bool {
    done.contains(t) <==> (t != SET_VALUE_INVALID && tag_stays(
        read,
        features,
        scripts,
        keep,
        by_script,
        t,
    ))
}

/// The script tags, or else the feature tags, of the rules that stay in the subset.
fn tags_kept(
    rules: &Vec<Substitution>,
    features: &TagSet,
    scripts: &TagSet,
    keep: &Vec<bool>,
    by_script: bool,
) -> (r: TagSet)
    requires
        keep.len() <= u32::MAX,
        rules_in_face(keep.len() as u32, rules@),
    ensures
        forall|t: u32| #[trigger]
            r@.contains(t) <==> (t != SET_VALUE_INVALID && tag_stays(
                rules@,
                features@,
                scripts@,
                keep@,
                by_script,
                t,
            )),
{
    let mut out = TagSet::new().unwrap();
    let mut i: usize = 0;
    proof {
        assert forall|t: u32| #[trigger]
            tags_agree(out@, rules@.take(0), features@, scripts@, keep@, by_script, t) by {
            assert(!tag_stays(rules@.take(0), features@, scripts@, keep@, by_script, t));
        }
    }
    while i < rules.len()
        invariant
            i <= rules.len(),
            keep.len() <= u32::MAX,
            rules_in_face(keep.len() as u32, rules@),
            forall|t: u32| #[trigger]
                tags_agree(out@, rules@.take(i as int), features@, scripts@, keep@, by_script, t),
        decreases rules.len() - i,
    {
        let rule = &rules[i];
        let ghost done0 = out@;
        let ghost read0 = rules@.take(i as int);
        proof {
            assert(rule_in_face(keep.len() as u32, rules@[i as int]));
        }
        if rule_survives(rule, features, scripts, keep) {
            let tag = if by_script {
                rule.script
            } else {
                rule.feature
            };
            if tag.to_u32() != SET_VALUE_INVALID {
                out.insert(tag);
            }
        }
        i += 1;
        proof {
            let read1 = rules@.take(i as int);
            assert(read1 =~= read0.push(*rule));
            assert forall|t: u32| #[trigger]
                tags_agree(out@, read1, features@, scripts@, keep@, by_script, t) by {
                assert(tags_agree(done0, read0, features@, scripts@, keep@, by_script, t));
                lemma_tag_stays_push(read0, *rule, features@, scripts@, keep@, by_script, t);
            }
        }
    }
    proof {
        assert(rules@.take(rules.len() as int) =~= rules@);
        assert forall|t: u32| #[trigger]
            out@.contains(t) <==> (t != SET_VALUE_INVALID && tag_stays(
                rules@,
                features@,
                scripts@,
                keep@,
                by_script,
                t,
            )) by {
            assert(tags_agree(out@, rules@, features@, scripts@, keep@, by_script, t));
        }
    }
    out
}

impl<'f> SubsetPlan<'f> {
    /// The tags of the layout features that stay in the subset: the allowed features that
    /// have a rule all of whose glyphs stay, under an allowed script.
    pub fn retained_features(&self) -> (r: TagSet)
        ensures
            forall|t: u32| #[trigger]
                r@.contains(t) <==> (t != SET_VALUE_INVALID && tag_stays(
                    self.source().rules(),
                    self.allowed_features(),
                    self.allowed_scripts(),
                    self.kept_marks(),
                    false,
                    t,
                )),
    {
        proof {
            use_type_invariant(self);
        }
        tags_kept(
            self.face.substitutions(),
            &self.layout_features,
            &self.layout_scripts,
            &self.keep,
            false,
        )
    }

    /// The tags of the layout scripts that stay in the subset: the allowed scripts that have
    /// a rule all of whose glyphs stay, of an allowed feature.
    pub fn retained_scripts(&self) -> (r: TagSet)
        ensures
            forall|t: u32| #[trigger]
                r@.contains(t) <==> (t != SET_VALUE_INVALID && tag_stays(
                    self.source().rules(),
                    self.allowed_features(),
                    self.allowed_scripts(),
                    self.kept_marks(),
                    true,
                    t,
                )),
    {
        proof {
            use_type_invariant(self);
        }
        tags_kept(
            self.face.substitutions(),
            &self.layout_features,
            &self.layout_scripts,
            &self.keep,
            true,
        )
    }
}

/// An input that retains every glyph and asks for no glyph ids can always be planned for:
/// every glyph of the face stays, and stays under its own id.
pub proof fn lemma_keep_everything_has_plan(input: SubsetInputView, face: &FontFace)
    requires
        input.glyphs == everything(),
        input.glyph_map == Map::<u32, u32>::empty(),
    ensures
        !unmappable(input.flags, input.glyph_map, marks(input, face)),
        forall|g: u32| g < face.glyphs() ==> #[trigger] retained(input, face, g),
        forall|g: u32|
            g < face.glyphs() ==> #[trigger] new_id(
                input.flags,
                input.glyph_map,
                marks(input, face),
                g,
            ) == g,
{
    let keep = marks(input, face);
    let wanted = input.glyph_map;
    assert forall|g: u32| g < face.glyphs() implies #[trigger] retained(input, face, g) by {
        assert(is_seed(input, face, g));
        assert(reached(input, face, 0).contains(g));
    }
    assert forall|a: int| 0 <= a < keep.len() implies #[trigger] keep[a] by {
        assert(retained(input, face, a as u32));
    }
    lemma_first_free_of_none();
    assert(wanted.dom() =~= Set::<u32>::empty());
    assert forall|g: u32| g < face.glyphs() implies #[trigger] new_id(
        input.flags,
        wanted,
        keep,
        g,
    ) == g by {
        lemma_rank_of_all(keep, g as int);
    }
    assert(wanted.dom().len() == 0);
    assert forall|a: int| 0 <= a < keep.len() && #[trigger] keep[a] implies new_id(
        input.flags,
        wanted,
        keep,
        a as u32,
    ) <= u32::MAX by {
        assert(new_id(input.flags, wanted, keep, a as u32) == a);
    }
    assert forall|a: int, b: int|
        0 <= a < b < keep.len() && #[trigger] keep[a] && #[trigger] keep[b] implies new_id(
        input.flags,
        wanted,
        keep,
        a as u32,
    ) != new_id(input.flags, wanted, keep, b as u32) by {
        assert(new_id(input.flags, wanted, keep, a as u32) == a);
        assert(new_id(input.flags, wanted, keep, b as u32) == b);
    }
}

/// For an input that retains every code point and every glyph and asks for no glyph ids, the
/// face that the plan gives has the glyph count and the code points of the face that the
/// plan was made for.
pub proof fn lemma_keep_everything_keeps_all(
    input: SubsetInputView,
    face: &FontFace,
    plan: SubsetPlan,
    made: &FontFace,
)
    requires
        input.unicodes == everything(),
        input.glyphs == everything(),
        input.glyph_map == Map::<u32, u32>::empty(),
        plan.made_for(input, face),
        plan.gives(made),
    ensures
        forall|g: u32| g < face.glyphs() ==> #[trigger] plan.old_to_new()[g] == g,
        made.glyphs() == face.glyphs(),
        made.char_map().dom().remove(SET_VALUE_INVALID) == face.char_map().dom().remove(
            SET_VALUE_INVALID,
        ),
{
    let o2n = plan.old_to_new();
    lemma_keep_everything_has_plan(input, face);
    assert forall|g: u32| g < face.glyphs() implies #[trigger] o2n[g] == g by {
        assert(retained(input, face, g));
        assert(o2n.contains_key(g));
        assert(new_id(input.flags, input.glyph_map, marks(input, face), g) == g);
    }
    assert(is_first_free(o2n, face.glyphs() as int)) by {
        assert forall|v: u32| o2n.values().contains(v) implies v < face.glyphs() by {
            let k = choose|k: u32| #[trigger] o2n.dom().contains(k) && o2n[k] == v;
            assert(o2n.contains_key(k));
        }
        if face.glyphs() > 0 {
            let last = (face.glyphs() - 1) as u32;
            assert(o2n.contains_key(last) && o2n[last] == last);
            assert(o2n.values().contains(last));
        }
    }
    lemma_first_free_unique(o2n, face.glyphs() as int);
    assert(made.char_map().dom().remove(SET_VALUE_INVALID) =~= face.char_map().dom().remove(
        SET_VALUE_INVALID,
    ));
}

} // verus!
