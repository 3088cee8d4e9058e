use hb_subset::flags::{
    DESUBROUTINIZE, GLYPH_NAMES, NAME_LEGACY, NOTDEF_OUTLINE, NO_HINTING, NO_LAYOUT_CLOSURE,
    NO_PRUNE_UNICODE_RANGES, PASSTHROUGH_UNRECOGNIZED, RETAIN_GIDS, SET_OVERLAPS_FLAG,
};
use hb_subset::Flags;

#[test]
fn default_flags_have_every_switch_off() {
    assert_eq!(Flags::default(), Flags(0));
    assert_eq!(
        *Flags::default()
            .retain_hinting()
            .remap_glyph_indices()
            .retain_subroutines()
            .retain_subroutines()
            .remove_legacy_names()
            .remove_overlap_simple_flag()
            .remove_unrecognized_tables()
            .remove_notdef_outline()
            .remove_glyph_names()
            .recompute_unicode_ranges()
            .retain_layout_closure(),
        Flags::default()
    );
}

#[test]
fn each_switch_has_its_own_bit() {
    assert_eq!(*Flags::default().remove_hinting(), Flags(NO_HINTING));
    assert_eq!(*Flags::default().retain_glyph_indices(), Flags(RETAIN_GIDS));
    assert_eq!(*Flags::default().remove_subroutines(), Flags(DESUBROUTINIZE));
    assert_eq!(*Flags::default().retain_legacy_names(), Flags(NAME_LEGACY));
    assert_eq!(*Flags::default().set_overlap_simple_flag(), Flags(SET_OVERLAPS_FLAG));
    assert_eq!(
        *Flags::default().retain_unrecognized_tables(),
        Flags(PASSTHROUGH_UNRECOGNIZED)
    );
    assert_eq!(*Flags::default().retain_notdef_outline(), Flags(NOTDEF_OUTLINE));
    assert_eq!(*Flags::default().retain_glyph_names(), Flags(GLYPH_NAMES));
    assert_eq!(*Flags::default().retain_unicode_ranges(), Flags(NO_PRUNE_UNICODE_RANGES));
    assert_eq!(*Flags::default().no_layout_closure(), Flags(NO_LAYOUT_CLOSURE));
    assert_eq!(
        [
            NO_HINTING,
            RETAIN_GIDS,
            DESUBROUTINIZE,
            NAME_LEGACY,
            SET_OVERLAPS_FLAG,
            PASSTHROUGH_UNRECOGNIZED,
            NOTDEF_OUTLINE,
            GLYPH_NAMES,
            NO_PRUNE_UNICODE_RANGES,
            NO_LAYOUT_CLOSURE
        ],
        [0x1, 0x2, 0x4, 0x8, 0x10, 0x20, 0x40, 0x80, 0x100, 0x200]
    );
}

#[test]
fn switches_do_not_touch_each_other() {
    let mut flags = Flags(0x3ff);
    assert_eq!(*flags.retain_hinting(), Flags(0x3fe));
    assert_eq!(*flags.remap_glyph_indices(), Flags(0x3fc));
    assert_eq!(*flags.retain_subroutines(), Flags(0x3f8));
    assert_eq!(*flags.remove_legacy_names(), Flags(0x3f0));
    assert_eq!(*flags.remove_overlap_simple_flag(), Flags(0x3e0));
    assert_eq!(*flags.remove_unrecognized_tables(), Flags(0x3c0));
    assert_eq!(*flags.remove_notdef_outline(), Flags(0x380));
    assert_eq!(*flags.remove_glyph_names(), Flags(0x300));
    assert_eq!(*flags.recompute_unicode_ranges(), Flags(0x200));
    assert_eq!(*flags.retain_layout_closure(), Flags(0));
    flags.retain_glyph_names().remove_hinting().retain_glyph_names();
    assert!(flags.contains(GLYPH_NAMES));
    assert!(flags.contains(NO_HINTING));
    assert!(!flags.contains(RETAIN_GIDS));
    assert_eq!(flags, Flags(GLYPH_NAMES | NO_HINTING));
}
