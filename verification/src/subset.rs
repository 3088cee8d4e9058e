//! The description of a subset: what a caller wants to keep of a font face.

use crate::error::AllocationError;
use crate::flags::{
    Flags, GLYPH_NAMES, NAME_LEGACY, NOTDEF_OUTLINE, NO_PRUNE_UNICODE_RANGES,
    PASSTHROUGH_UNRECOGNIZED,
};
use crate::map::IntMap;
use crate::set::{everything, CharSet, IntSet, TagSet, U32Set};
use vstd::prelude::*;

verus! {

/// Live handle onto the flags of a [`SubsetInput`]: what is written through it is part of
/// the input at once.
pub type FlagRef<'s> = &'s mut Flags;

/// What a [`SubsetInput`] holds, as plain mathematical values.
pub struct SubsetInputView {
    /// The raw code points to retain.
    pub unicodes: Set<u32>,
    /// The glyph ids to retain.
    pub glyphs: Set<u32>,
    /// The tags of the tables that are passed through untouched.
    pub no_subset_tables: Set<u32>,
    /// The tags of the tables that are dropped.
    pub drop_tables: Set<u32>,
    /// The name ids to retain.
    pub name_ids: Set<u32>,
    /// The name language ids to retain.
    pub name_langs: Set<u32>,
    /// The tags of the layout features to retain.
    pub layout_features: Set<u32>,
    /// The tags of the layout scripts to retain.
    pub layout_scripts: Set<u32>,
    /// The switches.
    pub flags: Flags,
    /// The new glyph ids that the caller asks for, by old glyph id.
    pub glyph_map: Map<u32, u32>,
}

/// A description of how a font should be subset.
///
/// Subsetting reduces the codepoint coverage of font files and removes all data that is no
/// longer needed. A subset input describes the desired subset. The input is provided along with
/// a font to the subsetting operation. Output is a new font containing only the data specified
/// in the input.
#[derive(Debug)]
pub struct SubsetInput {
    unicodes: CharSet,
    glyphs: U32Set,
    no_subset_tables: TagSet,
    drop_tables: TagSet,
    name_ids: U32Set,
    name_langs: U32Set,
    layout_features: TagSet,
    layout_scripts: TagSet,
    flags: Flags,
    glyph_map: IntMap<u32, u32>,
}

impl View for SubsetInput {
    type V = SubsetInputView;

    closed spec fn view(&self) -> SubsetInputView {
        SubsetInputView {
            unicodes: self.unicodes@,
            glyphs: self.glyphs@,
            no_subset_tables: self.no_subset_tables@,
            drop_tables: self.drop_tables@,
            name_ids: self.name_ids@,
            name_langs: self.name_langs@,
            layout_features: self.layout_features@,
            layout_scripts: self.layout_scripts@,
            flags: self.flags,
            glyph_map: self.glyph_map@,
        }
    }
}

/// A new set that holds every value.
fn full_set<T>() -> (r: IntSet<T>)
    ensures
        r@ == everything(),
{
    let mut set = IntSet::<T>::new().unwrap();
    set.fill();
    set
}

impl SubsetInput {
    /// Creates a new subset input object.
    ///
    /// It retains no code point, no glyph and no name, names no table, has every switch at
    /// its default and asks for no glyph id. Every layout feature and every layout script is
    /// allowed.
    pub fn new() -> (r: Result<Self, AllocationError>)
        ensures
            r is Ok,
            r->Ok_0@ == (SubsetInputView {
                unicodes: Set::<u32>::empty(),
                glyphs: Set::<u32>::empty(),
                no_subset_tables: Set::<u32>::empty(),
                drop_tables: Set::<u32>::empty(),
                name_ids: Set::<u32>::empty(),
                name_langs: Set::<u32>::empty(),
                layout_features: everything(),
                layout_scripts: everything(),
                flags: Flags(0),
                glyph_map: Map::<u32, u32>::empty(),
            }),
    {
        Ok(
            SubsetInput {
                unicodes: IntSet::new().unwrap(),
                glyphs: IntSet::new().unwrap(),
                no_subset_tables: IntSet::new().unwrap(),
                drop_tables: IntSet::new().unwrap(),
                name_ids: IntSet::new().unwrap(),
                name_langs: IntSet::new().unwrap(),
                layout_features: full_set(),
                layout_scripts: full_set(),
                flags: Flags(0),
                glyph_map: IntMap::new().unwrap(),
            },
        )
    }

    /// Configures input object to keep everything in the font face. That is, all Unicodes,
    /// glyphs, names, layout items, glyph names, etc.
    ///
    /// Every retention set then holds every value, no table is dropped, and the switches keep
    /// unrecognized tables, the notdef outline, glyph names, legacy names and the Unicode
    /// ranges. The input can be tailored afterwards by the caller.
    pub fn keep_everything(&mut self)
        ensures
            final(self)@ == (SubsetInputView {
                unicodes: everything(),
                glyphs: everything(),
                name_ids: everything(),
                name_langs: everything(),
                layout_features: everything(),
                layout_scripts: everything(),
                drop_tables: Set::<u32>::empty(),
                flags: Flags(
                    PASSTHROUGH_UNRECOGNIZED | NOTDEF_OUTLINE | GLYPH_NAMES | NAME_LEGACY
                        | NO_PRUNE_UNICODE_RANGES,
                ),
                ..old(self)@
            }),
    {
        self.unicodes.fill();
        self.glyphs.fill();
        self.name_ids.fill();
        self.name_langs.fill();
        self.layout_features.fill();
        self.layout_scripts.fill();
        self.drop_tables.clear();
        self.flags = Flags(
            PASSTHROUGH_UNRECOGNIZED | NOTDEF_OUTLINE | GLYPH_NAMES | NAME_LEGACY
                | NO_PRUNE_UNICODE_RANGES,
        );
    }

    /// Gets a live handle for reading and modifying flags.
    pub fn flags(&mut self) -> (r: FlagRef<'_>)
        ensures
            *r == old(self)@.flags,
            final(self)@ == (SubsetInputView { flags: *final(r), ..old(self)@ }),
    {
        &mut self.flags
    }

    /// Gets the set of glyph IDs to retain.
    ///
    /// The caller should modify the set as needed.
    pub fn glyph_set(&mut self) -> (r: &mut U32Set)
        ensures
            r@ == old(self)@.glyphs,
            final(self)@ == (SubsetInputView { glyphs: final(r)@, ..old(self)@ }),
    {
        &mut self.glyphs
    }

    /// Gets the set of table tags which specifies tables that should not be subsetted.
    ///
    /// The caller should modify the set as needed.
    pub fn no_subset_table_tag_set(&mut self) -> (r: &mut TagSet)
        ensures
            r@ == old(self)@.no_subset_tables,
            final(self)@ == (SubsetInputView { no_subset_tables: final(r)@, ..old(self)@ }),
    {
        &mut self.no_subset_tables
    }

    /// Gets the set of table tags which specifies tables which will be dropped in the subset.
    ///
    /// The caller should modify the set as needed.
    pub fn drop_table_tag_set(&mut self) -> (r: &mut TagSet)
        ensures
            r@ == old(self)@.drop_tables,
            final(self)@ == (SubsetInputView { drop_tables: final(r)@, ..old(self)@ }),
    {
        &mut self.drop_tables
    }

    /// Gets the set of name ids that will be retained.
    ///
    /// The caller should modify the set as needed.
    pub fn name_id_set(&mut self) -> (r: &mut U32Set)
        ensures
            r@ == old(self)@.name_ids,
            final(self)@ == (SubsetInputView { name_ids: final(r)@, ..old(self)@ }),
    {
        &mut self.name_ids
    }

    /// Gets the set of name lang ids that will be retained.
    ///
    /// The caller should modify the set as needed.
    pub fn name_lang_id_set(&mut self) -> (r: &mut U32Set)
        ensures
            r@ == old(self)@.name_langs,
            final(self)@ == (SubsetInputView { name_langs: final(r)@, ..old(self)@ }),
    {
        &mut self.name_langs
    }

    /// Gets the set of layout feature tags that will be retained in the subset.
    ///
    /// Defaults to all tags.
    ///
    /// The caller should modify the set as needed.
    pub fn layout_feature_tag_set(&mut self) -> (r: &mut TagSet)
        ensures
            r@ == old(self)@.layout_features,
            final(self)@ == (SubsetInputView { layout_features: final(r)@, ..old(self)@ }),
    {
        &mut self.layout_features
    }

    /// Gets the set of layout script tags that will be retained in the subset.
    ///
    /// Defaults to all tags.
    ///
    /// The caller should modify the set as needed.
    pub fn layout_script_tag_set(&mut self) -> (r: &mut TagSet)
        ensures
            r@ == old(self)@.layout_scripts,
            final(self)@ == (SubsetInputView { layout_scripts: final(r)@, ..old(self)@ }),
    {
        &mut self.layout_scripts
    }

    /// Returns a map which can be used to provide an explicit mapping from old to new glyph
    /// id's in the produced subset. The caller should populate the map as desired. If this map
    /// is left empty then glyph ids will be automatically mapped to new values by the
    /// subsetter. If populated, the mapping must be unique. That is no two original glyph ids
    /// can be mapped to the same new id. Additionally, if a mapping is provided then the
    /// retain gids option cannot be enabled.
    ///
    /// Any glyphs that are retained in the subset which are not specified in this mapping will
    /// be assigned glyph ids after the highest glyph id in the mapping.
    ///
    /// Note: this will accept and apply non-monotonic mappings, however this may result in
    /// unsorted Coverage tables. So it's recommended, if possible, to supply a monotonic
    /// mapping.
    pub fn old_to_new_glyph_mapping(&mut self) -> (r: &mut IntMap<u32, u32>)
        ensures
            r@ == old(self)@.glyph_map,
            final(self)@ == (SubsetInputView { glyph_map: final(r)@, ..old(self)@ }),
    {
        &mut self.glyph_map
    }

    /// Gets the set of Unicode codepoints to retain.
    ///
    /// The caller should modify the set as needed.
    pub fn unicode_set(&mut self) -> (r: &mut CharSet)
        ensures
            r@ == old(self)@.unicodes,
            final(self)@ == (SubsetInputView { unicodes: final(r)@, ..old(self)@ }),
    {
        &mut self.unicodes
    }
}

impl SubsetInput {
    /// The code points to retain, for reading.
    pub fn unicodes(&self) -> (r: &CharSet)
        ensures
            r@ == self@.unicodes,
    {
        &self.unicodes
    }

    /// The glyph ids to retain, for reading.
    pub fn glyphs(&self) -> (r: &U32Set)
        ensures
            r@ == self@.glyphs,
    {
        &self.glyphs
    }

    /// The tags of the tables that are passed through untouched, for reading.
    pub fn no_subset_tables(&self) -> (r: &TagSet)
        ensures
            r@ == self@.no_subset_tables,
    {
        &self.no_subset_tables
    }

    /// The tags of the tables that are dropped, for reading.
    pub fn drop_tables(&self) -> (r: &TagSet)
        ensures
            r@ == self@.drop_tables,
    {
        &self.drop_tables
    }

    /// The name ids to retain, for reading.
    pub fn name_ids(&self) -> (r: &U32Set)
        ensures
            r@ == self@.name_ids,
    {
        &self.name_ids
    }

    /// The name language ids to retain, for reading.
    pub fn name_langs(&self) -> (r: &U32Set)
        ensures
            r@ == self@.name_langs,
    {
        &self.name_langs
    }

    /// The tags of the layout features to retain, for reading.
    pub fn layout_features(&self) -> (r: &TagSet)
        ensures
            r@ == self@.layout_features,
    {
        &self.layout_features
    }

    /// The tags of the layout scripts to retain, for reading.
    pub fn layout_scripts(&self) -> (r: &TagSet)
        ensures
            r@ == self@.layout_scripts,
    {
        &self.layout_scripts
    }

    /// The switches as they stand.
    pub fn current_flags(&self) -> (r: Flags)
        ensures
            r == self@.flags,
    {
        self.flags
    }

    /// The new glyph ids that the caller asks for, for reading.
    pub fn glyph_mapping(&self) -> (r: &IntMap<u32, u32>)
        ensures
            r@ == self@.glyph_map,
    {
        &self.glyph_map
    }
}

} // verus!
