use hb_subset::flags::{
    GLYPH_NAMES, NAME_LEGACY, NOTDEF_OUTLINE, NO_LAYOUT_CLOSURE, NO_PRUNE_UNICODE_RANGES,
    PASSTHROUGH_UNRECOGNIZED, RETAIN_GIDS,
};
use hb_subset::set::Bound::{Included, Unbounded};
use hb_subset::{
    Blob, Flags, FontFace, IntMap, Language, NameRecord, SubsetInput, SubsettingError,
    Substitution, TableAction, Tag,
};

const NOTDEF: u32 = 0;
const F: u32 = 1;
const I: u32 = 2;
const FI: u32 = 3;
const FFI: u32 = 4;
const FF: u32 = 5;
const A: u32 = 6;
const AACUTE: u32 = 7;
const ACUTE: u32 = 8;

fn rule(feature: &[u8; 4], inputs: &[u32], output: u32) -> Substitution {
    Substitution {
        script: Tag::new(*b"latn"),
        feature: Tag::new(*feature),
        inputs: inputs.to_vec(),
        output,
    }
}

fn name(name_id: u32, language: &str, text: &str) -> NameRecord {
    NameRecord {
        name_id,
        language: Language::from_str(language).unwrap(),
        text: text.to_string(),
    }
}

/// A face with nine glyphs: notdef, f, i, the ligatures fi, ffi and ff, a, and an accented a
/// that is composed of a and an accent.
fn ligature_face() -> FontFace {
    let cmap = IntMap::<char, u32>::from_iter(vec![('f', F), ('i', I), ('a', A), ('á', AACUTE)]);
    FontFace::from_parts(
        Blob::empty(),
        vec![Tag::new(*b"cmap"), Tag::new(*b"glyf"), Tag::new(*b"GSUB"), Tag::new(*b"DSIG")],
        9,
        cmap,
        vec![(AACUTE, A), (AACUTE, ACUTE)],
        vec![
            rule(b"liga", &[F, I], FI),
            rule(b"liga", &[F, F, I], FFI),
            rule(b"liga", &[F, F], FF),
        ],
        vec![name(1, "en", "Model Sans"), name(0, "en", "No rights reserved"), name(1, "fi", "Malli")],
    )
    .unwrap()
}

fn pairs(map: &IntMap<u32, u32>) -> Vec<(u32, u32)> {
    map.as_raw().clone()
}

#[test]
fn subset_keep_everything_should_keep_all_codepoints_and_glyphs() {
    let mut subset = SubsetInput::new().unwrap();
    subset.keep_everything();
    assert_eq!(subset.unicode_set().len(), u32::MAX as usize);
    assert_eq!(subset.glyph_set().len(), u32::MAX as usize);
    let orig = ligature_face();
    let new = subset.subset_font(&orig).unwrap();
    assert_eq!(
        orig.collect_unicodes().unwrap().len(),
        new.collect_unicodes().unwrap().len()
    );
    assert_eq!(orig.glyph_count(), new.glyph_count());
    assert_eq!(new.glyph_count(), 9);
    assert_eq!(new.collect_unicodes().unwrap().len(), 4);
}

#[test]
fn subset_keeping_codepoints_should_keep_ligatures() {
    let mut subset = SubsetInput::new().unwrap();
    subset.unicode_set().insert('f');
    subset.unicode_set().insert('i');
    let font = subset.subset_font(&ligature_face()).unwrap();
    assert_eq!(font.collect_unicodes().unwrap().len(), 2);
    assert_eq!(font.glyph_count(), 6);
}

#[test]
fn plan_names_the_glyphs_that_stay() {
    let mut subset = SubsetInput::new().unwrap();
    subset.unicode_set().insert('f');
    subset.unicode_set().insert('i');
    let face = ligature_face();
    let plan = subset.plan(&face).unwrap();
    assert_eq!(
        pairs(plan.old_to_new_glyph_mapping()),
        vec![(NOTDEF, 0), (F, 1), (I, 2), (FI, 3), (FFI, 4), (FF, 5)]
    );
    assert_eq!(
        pairs(plan.new_to_old_glyph_mapping()),
        vec![(0, NOTDEF), (1, F), (2, I), (3, FI), (4, FFI), (5, FF)]
    );
    assert_eq!(plan.unicode_to_old_glyph_mapping().get('f'), Some(F));
    assert_eq!(plan.unicode_to_old_glyph_mapping().get('i'), Some(I));
    assert_eq!(plan.unicode_to_old_glyph_mapping().get('a'), None);
    assert_eq!(plan.unicode_to_old_glyph_mapping().len(), 2);
}

#[test]
fn closure_follows_components() {
    let mut subset = SubsetInput::new().unwrap();
    subset.unicode_set().insert('á');
    let face = ligature_face();
    let plan = subset.plan(&face).unwrap();
    assert_eq!(
        pairs(plan.old_to_new_glyph_mapping()),
        vec![(NOTDEF, 0), (A, 1), (AACUTE, 2), (ACUTE, 3)]
    );
    let made = plan.subset().unwrap();
    assert_eq!(made.glyph_count(), 4);
    assert_eq!(made.dependencies(), &vec![(2, 1), (2, 3)]);
    assert_eq!(made.cmap().get('á'), Some(2));
    assert_eq!(made.cmap().len(), 1);
    assert!(made.substitutions().is_empty());
    assert!(made.underlying_blob().is_empty());
}

#[test]
fn closure_needs_several_rounds() {
    // Glyph 1 needs 2, which with 3 makes 4, which needs 5; 3 comes from 5's rule only
    // after 5 is there, so nothing beyond 2 is found without the seed 3.
    let face = FontFace::from_parts(
        Blob::empty(),
        vec![],
        7,
        IntMap::<char, u32>::from_iter(vec![('x', 1), ('y', 3)]),
        vec![(4, 5), (1, 2), (6, 6)],
        vec![rule(b"ccmp", &[2, 3], 4), rule(b"ccmp", &[5], 3)],
        vec![],
    )
    .unwrap();
    let mut subset = SubsetInput::new().unwrap();
    subset.unicode_set().insert('x');
    let plan = subset.plan(&face).unwrap();
    assert_eq!(pairs(plan.old_to_new_glyph_mapping()), vec![(0, 0), (1, 1), (2, 2)]);
    subset.unicode_set().insert('y');
    let plan = subset.plan(&face).unwrap();
    assert_eq!(
        pairs(plan.old_to_new_glyph_mapping()),
        vec![(0, 0), (1, 1), (2, 2), (3, 3), (4, 4), (5, 5)]
    );
}

#[test]
fn seeds_come_from_glyphs_and_codepoints() {
    let mut subset = SubsetInput::new().unwrap();
    subset.glyph_set().insert(FF);
    subset.glyph_set().insert(1000);
    subset.unicode_set().insert('a');
    subset.unicode_set().insert('z');
    let face = ligature_face();
    let plan = subset.plan(&face).unwrap();
    assert_eq!(
        pairs(plan.old_to_new_glyph_mapping()),
        vec![(NOTDEF, 0), (FF, 1), (A, 2)]
    );
    assert_eq!(plan.unicode_to_old_glyph_mapping().len(), 1);
}

#[test]
fn no_layout_closure_keeps_the_seeds_only() {
    let mut subset = SubsetInput::new().unwrap();
    subset.unicode_set().insert('f');
    subset.unicode_set().insert('i');
    subset.unicode_set().insert('á');
    subset.flags().no_layout_closure();
    assert!(subset.current_flags().contains(NO_LAYOUT_CLOSURE));
    let face = ligature_face();
    let plan = subset.plan(&face).unwrap();
    assert_eq!(
        pairs(plan.old_to_new_glyph_mapping()),
        vec![(NOTDEF, 0), (F, 1), (I, 2), (A, 3), (AACUTE, 4), (ACUTE, 5)]
    );
}

#[test]
fn layout_rules_need_their_feature_and_script() {
    let face = ligature_face();
    let mut subset = SubsetInput::new().unwrap();
    subset.unicode_set().insert('f');
    subset.unicode_set().insert('i');
    subset.layout_feature_tag_set().remove(Tag::new(*b"liga"));
    assert_eq!(subset.subset_font(&face).unwrap().glyph_count(), 3);

    let mut subset = SubsetInput::new().unwrap();
    subset.unicode_set().insert('f');
    subset.unicode_set().insert('i');
    subset.layout_script_tag_set().clear();
    assert_eq!(subset.subset_font(&face).unwrap().glyph_count(), 3);
    subset.layout_script_tag_set().insert(Tag::new(*b"latn"));
    let made = subset.subset_font(&face).unwrap();
    assert_eq!(made.glyph_count(), 6);
    assert_eq!(made.substitutions().len(), 3);
    assert_eq!(made.substitutions()[1].inputs, vec![1, 1, 2]);
    assert_eq!(made.substitutions()[1].output, 4);
    assert_eq!(made.substitutions()[1].feature, Tag::new(*b"liga"));
}

#[test]
fn default_remap_is_dense_and_monotonic() {
    let mut subset = SubsetInput::new().unwrap();
    subset.glyph_set().insert(ACUTE);
    subset.glyph_set().insert(FI);
    subset.glyph_set().insert(A);
    let face = ligature_face();
    let plan = subset.plan(&face).unwrap();
    let old_to_new = pairs(plan.old_to_new_glyph_mapping());
    assert_eq!(old_to_new, vec![(NOTDEF, 0), (FI, 1), (A, 2), (ACUTE, 3)]);
    for window in old_to_new.windows(2) {
        assert!(window[0].0 < window[1].0);
        assert!(window[0].1 < window[1].1);
    }
    assert_eq!(plan.old_to_new_glyph_mapping().get(0), Some(0));
}

#[test]
fn retain_gids_keeps_every_id() {
    let mut subset = SubsetInput::new().unwrap();
    subset.unicode_set().insert('á');
    subset.flags().retain_glyph_indices();
    assert!(subset.current_flags().contains(RETAIN_GIDS));
    let face = ligature_face();
    let plan = subset.plan(&face).unwrap();
    assert_eq!(
        pairs(plan.old_to_new_glyph_mapping()),
        vec![(NOTDEF, NOTDEF), (A, A), (AACUTE, AACUTE), (ACUTE, ACUTE)]
    );
    assert_eq!(
        pairs(plan.new_to_old_glyph_mapping()),
        vec![(NOTDEF, NOTDEF), (A, A), (AACUTE, AACUTE), (ACUTE, ACUTE)]
    );
    assert_eq!(plan.subset().unwrap().glyph_count(), 9);
    assert_eq!(plan.flags(), Flags(RETAIN_GIDS));
}

#[test]
fn explicit_mapping_is_used_verbatim() {
    let mut subset = SubsetInput::new().unwrap();
    subset.unicode_set().insert('á');
    subset.old_to_new_glyph_mapping().insert(AACUTE, 20);
    subset.old_to_new_glyph_mapping().insert(NOTDEF, 5);
    subset.old_to_new_glyph_mapping().insert(F, 30);
    let face = ligature_face();
    let plan = subset.plan(&face).unwrap();
    assert_eq!(
        pairs(plan.old_to_new_glyph_mapping()),
        vec![(NOTDEF, 5), (A, 31), (AACUTE, 20), (ACUTE, 32)]
    );
    assert_eq!(
        pairs(plan.new_to_old_glyph_mapping()),
        vec![(5, NOTDEF), (20, AACUTE), (31, A), (32, ACUTE)]
    );
    assert_eq!(plan.subset().unwrap().glyph_count(), 33);
}

#[test]
fn explicit_mapping_with_retain_gids_is_an_error() {
    let mut subset = SubsetInput::new().unwrap();
    subset.unicode_set().insert('a');
    subset.old_to_new_glyph_mapping().insert(A, 1);
    subset.flags().retain_glyph_indices();
    let face = ligature_face();
    assert_eq!(subset.plan(&face).err(), Some(SubsettingError));
    assert_eq!(subset.subset_font(&face).err(), Some(SubsettingError));
    subset.flags().remap_glyph_indices();
    assert!(subset.plan(&face).is_ok());
}

#[test]
fn shared_new_id_is_an_error() {
    let mut subset = SubsetInput::new().unwrap();
    subset.unicode_set().insert('á');
    subset.old_to_new_glyph_mapping().insert(A, 1);
    subset.old_to_new_glyph_mapping().insert(AACUTE, 1);
    let face = ligature_face();
    assert_eq!(subset.plan(&face).err(), Some(SubsettingError));
    // Glyphs that do not stay may share an id.
    let mut subset = SubsetInput::new().unwrap();
    subset.unicode_set().insert('a');
    subset.old_to_new_glyph_mapping().insert(A, 1);
    subset.old_to_new_glyph_mapping().insert(AACUTE, 1);
    let plan = subset.plan(&face).unwrap();
    assert_eq!(pairs(plan.old_to_new_glyph_mapping()), vec![(NOTDEF, 2), (A, 1)]);
}

#[test]
fn new_id_beyond_u32_is_an_error() {
    let face = ligature_face();
    let mut subset = SubsetInput::new().unwrap();
    subset.unicode_set().insert('a');
    subset.old_to_new_glyph_mapping().insert(A, u32::MAX);
    assert_eq!(subset.plan(&face).err(), Some(SubsettingError));
    subset.old_to_new_glyph_mapping().insert(NOTDEF, 0);
    let plan = subset.plan(&face).unwrap();
    assert_eq!(pairs(plan.old_to_new_glyph_mapping()), vec![(NOTDEF, 0), (A, u32::MAX)]);
    assert_eq!(plan.subset().err(), Some(SubsettingError));
    assert_eq!(subset.subset_font(&face).err(), Some(SubsettingError));
    subset.old_to_new_glyph_mapping().insert(A, u32::MAX - 1);
    assert_eq!(subset.subset_font(&face).unwrap().glyph_count(), u32::MAX as usize);
}

#[test]
fn tables_are_dropped_passed_or_subset() {
    let mut subset = SubsetInput::new().unwrap();
    subset.drop_table_tag_set().insert(Tag::new(*b"DSIG"));
    subset.drop_table_tag_set().insert(Tag::new(*b"GSUB"));
    subset.no_subset_table_tag_set().insert(Tag::new(*b"GSUB"));
    subset.no_subset_table_tag_set().insert(Tag::new(*b"cmap"));
    let face = ligature_face();
    let plan = subset.plan(&face).unwrap();
    assert_eq!(
        plan.table_plan(),
        &vec![
            (Tag::new(*b"cmap"), TableAction::Passthrough),
            (Tag::new(*b"glyf"), TableAction::Subset),
            (Tag::new(*b"GSUB"), TableAction::Drop),
            (Tag::new(*b"DSIG"), TableAction::Drop),
        ]
    );
    let made = plan.subset().unwrap();
    assert_eq!(made.tables(), &vec![Tag::new(*b"cmap"), Tag::new(*b"glyf")]);
    assert_eq!(hb_subset::plan::table_action(&subset, Tag::new(*b"name")), TableAction::Subset);
}

#[test]
fn names_stay_by_name_id() {
    let face = ligature_face();
    let mut subset = SubsetInput::new().unwrap();
    let made = subset.subset_font(&face).unwrap();
    assert_eq!(made.font_family(), "");
    subset.name_id_set().insert(1);
    let made = subset.subset_font(&face).unwrap();
    assert_eq!(made.font_family(), "Model Sans");
    assert_eq!(made.copyright(), "");
    assert_eq!(made.ot_name(1, Language::from_str("fi").unwrap()), "Malli");
    assert_eq!(made.names().len(), 2);
}

#[test]
fn new_input_is_empty_but_allows_all_layout() {
    let mut subset = SubsetInput::new().unwrap();
    assert!(subset.unicode_set().is_empty());
    assert!(subset.glyph_set().is_empty());
    assert!(subset.no_subset_table_tag_set().is_empty());
    assert!(subset.drop_table_tag_set().is_empty());
    assert!(subset.name_id_set().is_empty());
    assert!(subset.name_lang_id_set().is_empty());
    assert_eq!(subset.layout_feature_tag_set().len(), u32::MAX as usize);
    assert_eq!(subset.layout_script_tag_set().len(), u32::MAX as usize);
    assert!(subset.old_to_new_glyph_mapping().is_empty());
    assert_eq!(*subset.flags(), Flags::default());
}

#[test]
fn keep_everything_fills_the_retention_sets() {
    let mut subset = SubsetInput::new().unwrap();
    subset.drop_table_tag_set().insert(Tag::new(*b"DSIG"));
    subset.no_subset_table_tag_set().insert(Tag::new(*b"GSUB"));
    subset.old_to_new_glyph_mapping().insert(1, 2);
    subset.keep_everything();
    assert_eq!(subset.name_id_set().len(), u32::MAX as usize);
    assert_eq!(subset.name_lang_id_set().len(), u32::MAX as usize);
    assert_eq!(subset.layout_feature_tag_set().len(), u32::MAX as usize);
    assert_eq!(subset.layout_script_tag_set().len(), u32::MAX as usize);
    assert!(subset.drop_table_tag_set().is_empty());
    assert!(subset.no_subset_table_tag_set().contains(Tag::new(*b"GSUB")));
    assert_eq!(subset.old_to_new_glyph_mapping().get(1), Some(2));
    assert_eq!(
        *subset.flags(),
        Flags(
            PASSTHROUGH_UNRECOGNIZED
                | NOTDEF_OUTLINE
                | GLYPH_NAMES
                | NAME_LEGACY
                | NO_PRUNE_UNICODE_RANGES
        )
    );
    assert!(subset.unicodes().contains_raw(0xD800));
}

#[test]
fn handles_write_through_at_once() {
    let mut subset = SubsetInput::new().unwrap();
    subset.flags().retain_glyph_names();
    assert_eq!(*subset.flags(), *Flags::default().retain_glyph_names());
    *subset.flags() = Flags::default();
    assert_eq!(*subset.flags(), Flags::default());
    subset.unicode_set().insert_range(Included('a'), Included('c'));
    subset.unicode_set().remove('b');
    assert!(subset.unicodes().contains('a'));
    assert!(!subset.unicodes().contains('b'));
    subset.glyph_set().insert_range(Included(3), Unbounded);
    assert_eq!(subset.glyphs().len(), (u32::MAX - 3) as usize);
}

#[test]
fn an_input_serves_many_faces() {
    let mut subset = SubsetInput::new().unwrap();
    subset.unicode_set().insert('f');
    let face = ligature_face();
    let first = subset.subset_font(&face).unwrap();
    let second = subset.subset_font(&face).unwrap();
    assert_eq!(first.glyph_count(), 3);
    assert_eq!(second.glyph_count(), 3);
    let again = subset.subset_font(&first).unwrap();
    assert_eq!(again.glyph_count(), 3);
    assert_eq!(again.collect_unicodes().unwrap().len(), 1);
}

#[test]
fn features_and_scripts_stay_with_their_rules() {
    let face = FontFace::from_parts(
        Blob::empty(),
        vec![],
        6,
        IntMap::<char, u32>::from_iter(vec![('a', 1), ('b', 2)]),
        vec![],
        vec![
            Substitution {
                script: Tag::new(*b"latn"),
                feature: Tag::new(*b"liga"),
                inputs: vec![1, 2],
                output: 3,
            },
            Substitution {
                script: Tag::new(*b"grek"),
                feature: Tag::new(*b"smcp"),
                inputs: vec![4],
                output: 5,
            },
            Substitution {
                script: Tag::new(*b"cyrl"),
                feature: Tag::new(*b"liga"),
                inputs: vec![2, 4],
                output: 3,
            },
        ],
        vec![],
    )
    .unwrap();
    let features = |subset: &SubsetInput| {
        subset.plan(&face).unwrap().retained_features().into_raw()
    };
    let scripts = |subset: &SubsetInput| {
        subset.plan(&face).unwrap().retained_scripts().into_raw()
    };
    let liga = Tag::new(*b"liga").to_u32();
    let latn = Tag::new(*b"latn").to_u32();
    let smcp = Tag::new(*b"smcp").to_u32();
    let grek = Tag::new(*b"grek").to_u32();
    let mut subset = SubsetInput::new().unwrap();
    subset.unicode_set().insert('a');
    assert_eq!(features(&subset), vec![]);
    assert_eq!(scripts(&subset), vec![]);
    subset.unicode_set().insert('b');
    assert_eq!(features(&subset), vec![(liga, liga)]);
    assert_eq!(scripts(&subset), vec![(latn, latn)]);
    subset.glyph_set().insert(4);
    let mut all = vec![(liga, liga), (smcp, smcp)];
    all.sort();
    assert_eq!(features(&subset), all);
    assert_eq!(scripts(&subset).len(), 3);
    subset.layout_script_tag_set().remove(Tag::new(*b"latn"));
    subset.layout_script_tag_set().remove(Tag::new(*b"cyrl"));
    assert_eq!(features(&subset), vec![(smcp, smcp)]);
    assert_eq!(scripts(&subset), vec![(grek, grek)]);
    subset.layout_feature_tag_set().clear();
    assert_eq!(features(&subset), vec![]);
    assert_eq!(scripts(&subset), vec![]);
}
