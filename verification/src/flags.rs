//! The bundle of boolean switches that tune a subsetting run.

use vstd::prelude::*;

verus! {

/// Bit of [`Flags`]: drop hinting instructions.
pub const NO_HINTING: u32 = 0x1;

/// Bit of [`Flags`]: keep every retained glyph at its original id.
pub const RETAIN_GIDS: u32 = 0x2;

/// Bit of [`Flags`]: remove subroutines from CFF charstrings.
pub const DESUBROUTINIZE: u32 = 0x4;

/// Bit of [`Flags`]: keep non-Unicode name records.
pub const NAME_LEGACY: u32 = 0x8;

/// Bit of [`Flags`]: set the overlap flag on simple glyphs.
pub const SET_OVERLAPS_FLAG: u32 = 0x10;

/// Bit of [`Flags`]: pass unrecognized tables through untouched.
pub const PASSTHROUGH_UNRECOGNIZED: u32 = 0x20;

/// Bit of [`Flags`]: keep the outline of glyph 0.
pub const NOTDEF_OUTLINE: u32 = 0x40;

/// Bit of [`Flags`]: keep PostScript glyph names.
pub const GLYPH_NAMES: u32 = 0x80;

/// Bit of [`Flags`]: keep the original Unicode range bits of `OS/2`.
pub const NO_PRUNE_UNICODE_RANGES: u32 = 0x100;

/// Bit of [`Flags`]: retain only the seed glyphs, without following layout rules.
pub const NO_LAYOUT_CLOSURE: u32 = 0x200;

/// Whether `flag` is one of the ten switches of [`Flags`].
pub open spec fn is_switch(flag: u32) -> bool {
    flag == NO_HINTING || flag == RETAIN_GIDS || flag == DESUBROUTINIZE || flag == NAME_LEGACY
        || flag == SET_OVERLAPS_FLAG || flag == PASSTHROUGH_UNRECOGNIZED || flag
        == NOTDEF_OUTLINE || flag == GLYPH_NAMES || flag == NO_PRUNE_UNICODE_RANGES || flag
        == NO_LAYOUT_CLOSURE
}

/// Flags for a subset input.
///
/// These flags can be used to instruct which tables the subsetter should touch, and how.
/// The default has every switch off: hinting, subroutines and layout closure are retained,
/// glyph ids are remapped, Unicode ranges are recomputed, and legacy names, the overlap flag,
/// unrecognized tables, the notdef outline and glyph names are removed.
#[derive(Clone, Copy, Debug, PartialEq, Eq, Structural)]
pub struct Flags(pub u32);

impl View for Flags {
    type V = u32;

    open spec fn view(&self) -> u32 {
        self.0
    }
}

impl Flags {
    /// Whether the switch `flag` is on.
    pub open spec fn has(self, flag: u32) -> bool {
        self.0 & flag != 0
    }

    /// These flags with the bits of `flag` switched on.
    pub open spec fn with(self, flag: u32) -> Flags {
        Flags(self.0 | flag)
    }

    /// These flags with the bits of `flag` switched off.
    pub open spec fn without(self, flag: u32) -> Flags {
        Flags(self.0 & !flag)
    }

    /// Tests whether the switch `flag` is on.
    pub fn contains(&self, flag: u32) -> (r: bool)
        ensures
            r == self.has(flag),
    {
        self.0 & flag != 0
    }

    fn add_flag(&mut self, flag: u32) -> (r: &mut Self)
        ensures
            *r == old(self).with(flag),
            *final(self) == *final(r),
    {
        self.0 = self.0 | flag;
        self
    }

    fn remove_flag(&mut self, flag: u32) -> (r: &mut Self)
        ensures
            *r == old(self).without(flag),
            *final(self) == *final(r),
    {
        self.0 = self.0 & !flag;
        self
    }

    /// Instructs subsetter to remove hinting instructions.
    pub fn remove_hinting(&mut self) -> (r: &mut Self)
        ensures
            *r == old(self).with(NO_HINTING),
            *final(self) == *final(r),
    {
        self.add_flag(NO_HINTING)
    }

    /// Instructs subsetter to retain hinting instructions.
    pub fn retain_hinting(&mut self) -> (r: &mut Self)
        ensures
            *r == old(self).without(NO_HINTING),
            *final(self) == *final(r),
    {
        self.remove_flag(NO_HINTING)
    }

    /// Instructs subsetter to retain glyph indices.
    ///
    /// If a glyph gets dropped, its index will still be retained as an empty glyph.
    pub fn retain_glyph_indices(&mut self) -> (r: &mut Self)
        ensures
            *r == old(self).with(RETAIN_GIDS),
            *final(self) == *final(r),
    {
        self.add_flag(RETAIN_GIDS)
    }

    /// Instructs subsetter to map old glyph indices to new ones.
    pub fn remap_glyph_indices(&mut self) -> (r: &mut Self)
        ensures
            *r == old(self).without(RETAIN_GIDS),
            *final(self) == *final(r),
    {
        self.remove_flag(RETAIN_GIDS)
    }

    /// Instructs subsetter to remove subroutines from the CFF glyphs.
    ///
    /// This has only effect when subsetting a CFF font.
    pub fn remove_subroutines(&mut self) -> (r: &mut Self)
        ensures
            *r == old(self).with(DESUBROUTINIZE),
            *final(self) == *final(r),
    {
        self.add_flag(DESUBROUTINIZE)
    }

    /// Instructs subsetter to retain subroutines for CFF glyphs.
    pub fn retain_subroutines(&mut self) -> (r: &mut Self)
        ensures
            *r == old(self).without(DESUBROUTINIZE),
            *final(self) == *final(r),
    {
        self.remove_flag(DESUBROUTINIZE)
    }

    /// Instructs subsetter to keep non-unicode name records.
    pub fn retain_legacy_names(&mut self) -> (r: &mut Self)
        ensures
            *r == old(self).with(NAME_LEGACY),
            *final(self) == *final(r),
    {
        self.add_flag(NAME_LEGACY)
    }

    /// Instructs subsetter to remove non-unicode name records.
    pub fn remove_legacy_names(&mut self) -> (r: &mut Self)
        ensures
            *r == old(self).without(NAME_LEGACY),
            *final(self) == *final(r),
    {
        self.remove_flag(NAME_LEGACY)
    }

    /// Instructs subsetter to set `OVERLAP_SIMPLE` flag for simple glyphs.
    ///
    /// This is not required for OpenType, but may affect rendering in some platforms.
    pub fn set_overlap_simple_flag(&mut self) -> (r: &mut Self)
        ensures
            *r == old(self).with(SET_OVERLAPS_FLAG),
            *final(self) == *final(r),
    {
        self.add_flag(SET_OVERLAPS_FLAG)
    }

    /// Instructs subsetter to not emit `OVERLAP_SIMPLE` flag.
    pub fn remove_overlap_simple_flag(&mut self) -> (r: &mut Self)
        ensures
            *r == old(self).without(SET_OVERLAPS_FLAG),
            *final(self) == *final(r),
    {
        self.remove_flag(SET_OVERLAPS_FLAG)
    }

    /// Instructs subsetter to keep unrecognized tables.
    ///
    /// The subsetter will just pass them through without touching them.
    pub fn retain_unrecognized_tables(&mut self) -> (r: &mut Self)
        ensures
            *r == old(self).with(PASSTHROUGH_UNRECOGNIZED),
            *final(self) == *final(r),
    {
        self.add_flag(PASSTHROUGH_UNRECOGNIZED)
    }

    /// Instructs subsetter to remove unrecognized tables.
    pub fn remove_unrecognized_tables(&mut self) -> (r: &mut Self)
        ensures
            *r == old(self).without(PASSTHROUGH_UNRECOGNIZED),
            *final(self) == *final(r),
    {
        self.remove_flag(PASSTHROUGH_UNRECOGNIZED)
    }

    /// Instructs subsetter to keep glyph outline for `notdef`.
    pub fn retain_notdef_outline(&mut self) -> (r: &mut Self)
        ensures
            *r == old(self).with(NOTDEF_OUTLINE),
            *final(self) == *final(r),
    {
        self.add_flag(NOTDEF_OUTLINE)
    }

    /// Instructs subsetter to remove glyph outline for `notdef`.
    pub fn remove_notdef_outline(&mut self) -> (r: &mut Self)
        ensures
            *r == old(self).without(NOTDEF_OUTLINE),
            *final(self) == *final(r),
    {
        self.remove_flag(NOTDEF_OUTLINE)
    }

    /// Instructs subsetter to keep glyph name information.
    pub fn retain_glyph_names(&mut self) -> (r: &mut Self)
        ensures
            *r == old(self).with(GLYPH_NAMES),
            *final(self) == *final(r),
    {
        self.add_flag(GLYPH_NAMES)
    }

    /// Instructs subsetter to remove glyph name information.
    pub fn remove_glyph_names(&mut self) -> (r: &mut Self)
        ensures
            *r == old(self).without(GLYPH_NAMES),
            *final(self) == *final(r),
    {
        self.remove_flag(GLYPH_NAMES)
    }

    /// Instructs subsetter to recompute unicode ranges in `OS/2` table.
    pub fn recompute_unicode_ranges(&mut self) -> (r: &mut Self)
        ensures
            *r == old(self).without(NO_PRUNE_UNICODE_RANGES),
            *final(self) == *final(r),
    {
        self.remove_flag(NO_PRUNE_UNICODE_RANGES)
    }

    /// Instructs subsetter to keep original unicode ranges in `OS/2` table.
    pub fn retain_unicode_ranges(&mut self) -> (r: &mut Self)
        ensures
            *r == old(self).with(NO_PRUNE_UNICODE_RANGES),
            *final(self) == *final(r),
    {
        self.add_flag(NO_PRUNE_UNICODE_RANGES)
    }

    /// Instructs subsetter to keep glyphs for all possible combinations of already retained
    /// glyphs.
    ///
    /// For example, if glyphs corresponding to `f` and `i` are retained, then also glyphs
    /// corresponding to the ligatures `ff`, `fi` and `ffi` are retained.
    pub fn retain_layout_closure(&mut self) -> (r: &mut Self)
        ensures
            *r == old(self).without(NO_LAYOUT_CLOSURE),
            *final(self) == *final(r),
    {
        self.remove_flag(NO_LAYOUT_CLOSURE)
    }

    /// Instructs subsetter to keep only minimum set of glyphs disregarding layout closure.
    pub fn no_layout_closure(&mut self) -> (r: &mut Self)
        ensures
            *r == old(self).with(NO_LAYOUT_CLOSURE),
            *final(self) == *final(r),
    {
        self.add_flag(NO_LAYOUT_CLOSURE)
    }
}

impl Default for Flags {
    fn default() -> (r: Flags)
        ensures
            r == Flags(0),
    {
        Flags(0)
    }
}

/// Switching one switch on or off leaves every other switch as it was, and puts the switch
/// itself in the state asked for.
pub proof fn lemma_switches_independent(flags: Flags, flag: u32, other: u32)
    requires
        is_switch(flag),
        is_switch(other),
        flag != other,
    ensures
        flags.with(flag).has(other) == flags.has(other),
        flags.without(flag).has(other) == flags.has(other),
        flags.with(flag).has(flag),
        !flags.without(flag).has(flag),
{
    let v = flags.0;
    assert(flag & other == 0 && flag != 0) by {
        lemma_switch_bits(flag, other);
    }
    assert((v | flag) & other != 0 <==> v & other != 0) by (bit_vector)
        requires
            flag & other == 0,
    ;
    assert((v & !flag) & other != 0 <==> v & other != 0) by (bit_vector)
        requires
            flag & other == 0,
    ;
    assert((v | flag) & flag != 0) by (bit_vector)
        requires
            flag != 0,
    ;
    assert((v & !flag) & flag == 0) by (bit_vector);
}

/// Two different switches share no bit, and no switch is without a bit.
proof fn lemma_switch_bits(flag: u32, other: u32)
    requires
        is_switch(flag),
        is_switch(other),
        flag != other,
    ensures
        flag & other == 0,
        flag != 0,
{
    assert(forall|a: u32, b: u32|
        (a == 0x1 || a == 0x2 || a == 0x4 || a == 0x8 || a == 0x10 || a == 0x20 || a == 0x40 || a
            == 0x80 || a == 0x100 || a == 0x200) && (b == 0x1 || b == 0x2 || b == 0x4 || b == 0x8
            || b == 0x10 || b == 0x20 || b == 0x40 || b == 0x80 || b == 0x100 || b == 0x200) && a
            != b ==> #[trigger] (a & b) == 0) by (bit_vector);
}

} // verus!
