//! A font face as the subsetter sees it: glyphs, the characters that reach them, and what
//! glyphs need of each other.

use crate::blob::Blob;
use crate::common::{Language, Tag};
use crate::error::{AllocationError, FontFaceExtractionError};
use crate::map::IntMap;
use crate::pairs::{ascending, lemma_lookup_at, to_map};
use crate::set::CharSet;
use crate::sfnt::{directory_ok, directory_start, directory_tags, read_directory};
use vstd::prelude::*;

verus! {

/// A layout rule that replaces a sequence of glyphs by one glyph, such as a ligature.
///
/// The rule belongs to one feature of one script. A rule with a single input is a plain
/// substitution.
#[derive(Debug)]
pub struct Substitution {
    /// The script under which the rule applies.
    pub script: Tag,
    /// The feature that the rule implements.
    pub feature: Tag,
    /// The glyphs that the rule consumes, in order.
    pub inputs: Vec<u32>,
    /// The glyph that the rule produces.
    pub output: u32,
}

/// One string of the name table.
#[derive(Debug)]
pub struct NameRecord {
    /// Which string this is: family, copyright, and so on.
    pub name_id: u32,
    /// The language of the string.
    pub language: Language,
    /// The string itself.
    pub text: String,
}

/// Whether every glyph that the pairs name lies below `glyph_count`.
pub open spec fn pairs_in_face(glyph_count: u32, pairs: Seq<(u32, u32)>) -> bool {
    forall|i: int|
        0 <= i < pairs.len() ==> (#[trigger] pairs[i]).0 < glyph_count && pairs[i].1 < glyph_count
}

/// Whether every glyph that the rule names lies below `glyph_count`.
pub open spec fn rule_in_face(glyph_count: u32, rule: Substitution) -> bool {
    &&& rule.output < glyph_count
    &&& forall|j: int| 0 <= j < rule.inputs@.len() ==> #[trigger] rule.inputs@[j] < glyph_count
}

/// Whether every glyph that the rules name lies below `glyph_count`.
pub open spec fn rules_in_face(glyph_count: u32, rules: Seq<Substitution>) -> bool {
    forall|i: int| 0 <= i < rules.len() ==> rule_in_face(glyph_count, #[trigger] rules[i])
}

/// Whether every glyph that the character map reaches lies below `glyph_count`.
pub open spec fn cmap_in_face(glyph_count: u32, cmap: Map<u32, u32>) -> bool {
    forall|c: u32| cmap.contains_key(c) ==> #[trigger] cmap[c] < glyph_count
}

/// A font face is an object that represents a single face from within a font family.
///
/// More precisely, a font face represents a single face in a binary font file. A face is
/// never changed in place: subsetting gives a new face.
#[derive(Debug)]
pub struct FontFace {
    raw: RawFace,
}

/// The raw form of a font face: its parts, as plain values.
#[derive(Debug)]
pub struct RawFace {
    /// The bytes that the face was read from; none for a face that was put together.
    pub blob: Blob,
    /// The tags of the tables, in the order of the table directory.
    pub tables: Vec<Tag>,
    /// The number of glyphs.
    pub glyph_count: u32,
    /// The character map.
    pub cmap: IntMap<char, u32>,
    /// The pairs of a glyph and a glyph that it needs.
    pub dependencies: Vec<(u32, u32)>,
    /// The layout rules.
    pub substitutions: Vec<Substitution>,
    /// The strings of the name table.
    pub names: Vec<NameRecord>,
}

impl RawFace {
    /// Whether the parts fit together: no part names a glyph that the face does not have.
    pub open spec fn fits(&self) -> bool {
        FontFace::parts_fit(
            self.glyph_count,
            self.cmap@,
            self.dependencies@,
            self.substitutions@,
        )
    }
}

impl FontFace {
    #[verifier::type_invariant]
    spec fn inv(self) -> bool {
        &&& cmap_in_face(self.raw.glyph_count, self.raw.cmap@)
        &&& pairs_in_face(self.raw.glyph_count, self.raw.dependencies@)
        &&& rules_in_face(self.raw.glyph_count, self.raw.substitutions@)
    }

    /// The number of glyphs of the face; glyph ids run from 0 up to it.
    pub closed spec fn glyphs(&self) -> u32 {
        self.raw.glyph_count
    }

    /// The character map: which glyph each covered code point selects.
    pub closed spec fn char_map(&self) -> Map<u32, u32> {
        self.raw.cmap@
    }

    /// The pairs of a glyph and a glyph that it needs: a component of a composite outline, or
    /// a glyph that its variation data refers to.
    pub closed spec fn needs(&self) -> Seq<(u32, u32)> {
        self.raw.dependencies@
    }

    /// The layout rules of the face.
    pub closed spec fn rules(&self) -> Seq<Substitution> {
        self.raw.substitutions@
    }

    /// The tags of the tables of the face, in the order of its table directory.
    pub closed spec fn table_tags(&self) -> Seq<Tag> {
        self.raw.tables@
    }

    /// The strings of the name table.
    pub closed spec fn name_records(&self) -> Seq<NameRecord> {
        self.raw.names@
    }

    /// The bytes that the face was made from; none for a face that was put together.
    pub closed spec fn bytes(&self) -> Seq<u8> {
        self.raw.blob@
    }

    /// Constructs a new face object from the specified blob.
    ///
    /// This defaults to taking the first face in the blob. If you need to specify which font
    /// face to load, you can use [`new_with_index`] instead.
    ///
    /// [`new_with_index`]: Self::new_with_index
    pub fn new(blob: Blob) -> (r: Result<Self, FontFaceExtractionError>)
        ensures
            r is Ok <==> (directory_start(blob@, 0) matches Some(start) && directory_ok(
                blob@,
                start,
            )),
            r matches Ok(face) ==> face.read_from(blob@, 0),
    {
        Self::new_with_index(blob, 0)
    }

    /// Whether the face is the one that reading face `index` of `bytes` gives: it has those
    /// bytes and the tables of the directory, and no glyph data has been attached to it yet.
    pub open spec fn read_from(&self, bytes: Seq<u8>, index: u32) -> bool {
        &&& self.bytes() == bytes
        &&& self.table_tags() == directory_tags(bytes, directory_start(bytes, index)->0)
        &&& self.glyphs() == 0
        &&& self.char_map() == Map::<u32, u32>::empty()
        &&& self.needs() == Seq::<(u32, u32)>::empty()
        &&& self.rules() == Seq::<Substitution>::empty()
        &&& self.name_records() == Seq::<NameRecord>::empty()
    }

    /// Constructs a new face object from the specified blob and a face index into that blob.
    ///
    /// The face index is used for blobs of file formats such as TTC and DFont that can contain
    /// more than one face. Face indices within such collections are zero-based.
    ///
    /// Fails when the blob has no face of that index, and when the table directory of the face
    /// does not lie within the blob or describes a table that does not.
    pub fn new_with_index(blob: Blob, index: u32) -> (r: Result<Self, FontFaceExtractionError>)
        ensures
            r is Ok <==> (directory_start(blob@, index) matches Some(start) && directory_ok(
                blob@,
                start,
            )),
            r matches Ok(face) ==> face.read_from(blob@, index),
    {
        let tables = match read_directory(blob.as_bytes(), index) {
            Some(tables) => tables,
            None => {
                return Err(FontFaceExtractionError);
            },
        };
        Self::from_parts(
            blob,
            tables,
            0,
            IntMap::new().unwrap(),
            Vec::new(),
            Vec::new(),
            Vec::new(),
        )
    }

    /// Whether the parts fit together: no part names a glyph that the face does not have.
    pub open spec fn parts_fit(
        glyph_count: u32,
        cmap: Map<u32, u32>,
        dependencies: Seq<(u32, u32)>,
        substitutions: Seq<Substitution>,
    ) -> bool {
        &&& cmap_in_face(glyph_count, cmap)
        &&& pairs_in_face(glyph_count, dependencies)
        &&& rules_in_face(glyph_count, substitutions)
    }

    /// Puts a face together from its parts.
    ///
    /// Fails when a part names a glyph that the face does not have.
    pub fn from_parts(
        blob: Blob,
        tables: Vec<Tag>,
        glyph_count: u32,
        cmap: IntMap<char, u32>,
        dependencies: Vec<(u32, u32)>,
        substitutions: Vec<Substitution>,
        names: Vec<NameRecord>,
    ) -> (r: Result<Self, FontFaceExtractionError>)
        ensures
            r is Ok <==> Self::parts_fit(glyph_count, cmap@, dependencies@, substitutions@),
            r matches Ok(face) ==> {
                &&& face.bytes() == blob@
                &&& face.table_tags() == tables@
                &&& face.glyphs() == glyph_count
                &&& face.char_map() == cmap@
                &&& face.needs() == dependencies@
                &&& face.rules() == substitutions@
                &&& face.name_records() == names@
            },
    {
        if !cmap_fits(glyph_count, &cmap) {
            return Err(FontFaceExtractionError);
        }
        if !pairs_fit(glyph_count, &dependencies) {
            return Err(FontFaceExtractionError);
        }
        if !rules_fit(glyph_count, &substitutions) {
            return Err(FontFaceExtractionError);
        }
        Ok(
            FontFace {
                raw: RawFace { blob, tables, glyph_count, cmap, dependencies, substitutions, names },
            },
        )
    }

    /// Whether the face has exactly the parts of `raw`.
    pub open spec fn made_of(&self, raw: &RawFace) -> bool {
        &&& self.bytes() == raw.blob@
        &&& self.table_tags() == raw.tables@
        &&& self.glyphs() == raw.glyph_count
        &&& self.char_map() == raw.cmap@
        &&& self.needs() == raw.dependencies@
        &&& self.rules() == raw.substitutions@
        &&& self.name_records() == raw.names@
    }

    /// Converts the font face into its raw form: its parts.
    pub fn into_raw(self) -> (r: RawFace)
        ensures
            self.made_of(&r),
            r.fits(),
    {
        proof {
            use_type_invariant(&self);
        }
        self.raw
    }

    /// Exposes the raw form of the font face without giving it away.
    pub fn as_raw(&self) -> (r: &RawFace)
        ensures
            self.made_of(r),
            r.fits(),
    {
        proof {
            use_type_invariant(self);
        }
        &self.raw
    }

    /// Constructs a font face from its raw form.
    ///
    /// The parts must fit together, as those that [`Self::into_raw`] or [`Self::as_raw`] give
    /// do. [`Self::from_parts`] takes any parts and tests them.
    pub fn from_raw(raw: RawFace) -> (r: Self)
        requires
            raw.fits(),
        ensures
            r.made_of(&raw),
    {
        FontFace { raw }
    }

    /// Fetches the glyph-count value of the specified face object; the same as
    /// [`Self::glyph_count`].
    pub fn get_glyph_count(&self) -> (r: usize)
        ensures
            r == self.glyphs(),
    {
        self.glyph_count()
    }

    /// Fetches the glyph-count value of the specified face object.
    pub fn glyph_count(&self) -> (r: usize)
        ensures
            r == self.glyphs(),
    {
        self.raw.glyph_count as usize
    }

    /// The character map of the face.
    pub fn cmap(&self) -> (r: &IntMap<char, u32>)
        ensures
            r@ == self.char_map(),
            cmap_in_face(self.glyphs(), r@),
    {
        proof {
            use_type_invariant(self);
        }
        &self.raw.cmap
    }

    /// The pairs of a glyph and a glyph that it needs.
    pub fn dependencies(&self) -> (r: &Vec<(u32, u32)>)
        ensures
            r@ == self.needs(),
            pairs_in_face(self.glyphs(), r@),
    {
        proof {
            use_type_invariant(self);
        }
        &self.raw.dependencies
    }

    /// The layout rules of the face.
    pub fn substitutions(&self) -> (r: &Vec<Substitution>)
        ensures
            r@ == self.rules(),
            rules_in_face(self.glyphs(), r@),
    {
        proof {
            use_type_invariant(self);
        }
        &self.raw.substitutions
    }

    /// The strings of the name table.
    pub fn names(&self) -> (r: &Vec<NameRecord>)
        ensures
            r@ == self.name_records(),
    {
        &self.raw.names
    }

    /// The tags of the tables of the face.
    pub fn tables(&self) -> (r: &Vec<Tag>)
        ensures
            r@ == self.table_tags(),
    {
        &self.raw.tables
    }

    /// Gets the blob underlying this font face.
    ///
    /// Useful when you want to output the font face to a file.
    ///
    /// Returns an empty blob if the face was put together rather than read from bytes.
    pub fn underlying_blob(&self) -> (r: Blob)
        ensures
            r@ == self.bytes(),
    {
        self.raw.blob.clone()
    }

    /// Collects all of the Unicode characters covered by the font face.
    pub fn collect_unicodes(&self) -> (r: Result<CharSet, AllocationError>)
        ensures
            r is Ok,
            r->Ok_0@ == self.char_map().dom().remove(u32::MAX),
    {
        self.raw.cmap.keys()
    }
}

/// Name id of the copyright notice.
pub const NAME_ID_COPYRIGHT: u32 = 0;

/// Name id of the font family name.
pub const NAME_ID_FONT_FAMILY: u32 = 1;

/// Name id of the font subfamily name.
pub const NAME_ID_FONT_SUBFAMILY: u32 = 2;

/// Name id of the unique font identifier.
pub const NAME_ID_UNIQUE_ID: u32 = 3;

/// Name id of the full font name that reflects all family and relevant subfamily descriptors.
pub const NAME_ID_FULL_NAME: u32 = 4;

/// Name id of the version string.
pub const NAME_ID_VERSION_STRING: u32 = 5;

/// Name id of the PostScript name for the font.
pub const NAME_ID_POSTSCRIPT_NAME: u32 = 6;

/// Name id of the trademark information.
pub const NAME_ID_TRADEMARK: u32 = 7;

/// Name id of the manufacturer name.
pub const NAME_ID_MANUFACTURER: u32 = 8;

/// Name id of the designer name.
pub const NAME_ID_DESIGNER: u32 = 9;

/// Name id of the description.
pub const NAME_ID_DESCRIPTION: u32 = 10;

/// Name id of the URL of font vendor.
pub const NAME_ID_VENDOR_URL: u32 = 11;

/// Name id of the URL of typeface designer.
pub const NAME_ID_DESIGNER_URL: u32 = 12;

/// Name id of the license description.
pub const NAME_ID_LICENSE: u32 = 13;

/// Name id of the URL where additional licensing information can be found.
pub const NAME_ID_LICENSE_URL: u32 = 14;

/// Name id of the typographic family name.
pub const NAME_ID_TYPOGRAPHIC_FAMILY: u32 = 16;

/// Name id of the typographic subfamily name.
pub const NAME_ID_TYPOGRAPHIC_SUBFAMILY: u32 = 17;

/// Name id of the compatible full name for MacOS.
pub const NAME_ID_MAC_FULL_NAME: u32 = 18;

/// Name id of the sample text.
pub const NAME_ID_SAMPLE_TEXT: u32 = 19;

/// Name id of the PostScript CID findfont name.
pub const NAME_ID_CID_FINDFONT_NAME: u32 = 20;

/// Name id of the WWS family name.
pub const NAME_ID_WWS_FAMILY: u32 = 21;

/// Name id of the WWS subfamily name.
pub const NAME_ID_WWS_SUBFAMILY: u32 = 22;

/// Name id of the light background palette.
pub const NAME_ID_LIGHT_BACKGROUND: u32 = 23;

/// Name id of the dark background palette.
pub const NAME_ID_DARK_BACKGROUND: u32 = 24;

/// Name id of the variations PostScript name prefix.
pub const NAME_ID_VARIATIONS_PS_PREFIX: u32 = 25;

/// The language that stands in for the default language when a name is looked up.
pub open spec fn effective_language(language: Seq<char>) -> Seq<char> {
    if language.len() == 0 {
        "en"@
    } else {
        language
    }
}

/// The text of the first record from index `from` on that has the name id `name_id` and the
/// language `language`; the empty text when there is none.
pub open spec fn find_name(
    records: Seq<NameRecord>,
    name_id: u32,
    language: Seq<char>,
    from: int,
) -> Seq<char>
    decreases records.len() - from,
{
    if from < 0 || from >= records.len() {
        Seq::empty()
    } else if records[from].name_id == name_id && records[from].language@ == language {
        records[from].text@
    } else {
        find_name(records, name_id, language, from + 1)
    }
}

/// Functions for fetching name strings from OpenType fonts.
impl FontFace {
    /// The string of the name table for `name_id` in `language`, or the empty string.
    pub open spec fn name_text(&self, name_id: u32, language: Seq<char>) -> Seq<char> {
        find_name(self.name_records(), name_id, effective_language(language), 0)
    }

    /// Gets value from OpenType name table for given language.
    ///
    /// Instead of using this method directly, consider using one of the convenience methods
    /// for getting the correct string directly.
    ///
    /// If `language` is the default language, English is assumed. The string is empty when
    /// the face has no such entry.
    pub fn ot_name(&self, name: u32, language: Language) -> (r: String)
        ensures
            r@ == self.name_text(name, language@),
    {
        let english = Language::from_str("en").unwrap();
        let wanted = if language.is_default() {
            english
        } else {
            language
        };
        let mut i: usize = 0;
        while i < self.raw.names.len()
            invariant
                i <= self.raw.names.len(),
                wanted@ == effective_language(language@),
                find_name(self.raw.names@, name, wanted@, 0) == find_name(
                    self.raw.names@,
                    name,
                    wanted@,
                    i as int,
                ),
            decreases self.raw.names.len() - i,
        {
            let record = &self.raw.names[i];
            if record.name_id == name && record.language.same_as(&wanted) {
                return record.text.clone();
            }
            i += 1;
        }
        String::new()
    }

    /// Gets copyright notice.
    pub fn copyright(&self) -> (r: String)
        ensures
            r@ == self.name_text(NAME_ID_COPYRIGHT, Seq::<char>::empty()),
    {
        self.ot_name(NAME_ID_COPYRIGHT, Language::default())
    }

    /// Gets font family name.
    pub fn font_family(&self) -> (r: String)
        ensures
            r@ == self.name_text(NAME_ID_FONT_FAMILY, Seq::<char>::empty()),
    {
        self.ot_name(NAME_ID_FONT_FAMILY, Language::default())
    }

    /// Gets font subfamily name.
    pub fn font_subfamily(&self) -> (r: String)
        ensures
            r@ == self.name_text(NAME_ID_FONT_SUBFAMILY, Seq::<char>::empty()),
    {
        self.ot_name(NAME_ID_FONT_SUBFAMILY, Language::default())
    }

    /// Gets unique font identifier.
    pub fn unique_id(&self) -> (r: String)
        ensures
            r@ == self.name_text(NAME_ID_UNIQUE_ID, Seq::<char>::empty()),
    {
        self.ot_name(NAME_ID_UNIQUE_ID, Language::default())
    }

    /// Gets full font name that reflects all family and relevant subfamily descriptors.
    pub fn full_name(&self) -> (r: String)
        ensures
            r@ == self.name_text(NAME_ID_FULL_NAME, Seq::<char>::empty()),
    {
        self.ot_name(NAME_ID_FULL_NAME, Language::default())
    }

    /// Gets version string.
    pub fn version_string(&self) -> (r: String)
        ensures
            r@ == self.name_text(NAME_ID_VERSION_STRING, Seq::<char>::empty()),
    {
        self.ot_name(NAME_ID_VERSION_STRING, Language::default())
    }

    /// Gets PostScript name for the font.
    pub fn postscript_name(&self) -> (r: String)
        ensures
            r@ == self.name_text(NAME_ID_POSTSCRIPT_NAME, Seq::<char>::empty()),
    {
        self.ot_name(NAME_ID_POSTSCRIPT_NAME, Language::default())
    }

    /// Gets trademark information.
    pub fn trademark(&self) -> (r: String)
        ensures
            r@ == self.name_text(NAME_ID_TRADEMARK, Seq::<char>::empty()),
    {
        self.ot_name(NAME_ID_TRADEMARK, Language::default())
    }

    /// Gets manufacturer name.
    pub fn manufacturer(&self) -> (r: String)
        ensures
            r@ == self.name_text(NAME_ID_MANUFACTURER, Seq::<char>::empty()),
    {
        self.ot_name(NAME_ID_MANUFACTURER, Language::default())
    }

    /// Gets designer name.
    pub fn designer(&self) -> (r: String)
        ensures
            r@ == self.name_text(NAME_ID_DESIGNER, Seq::<char>::empty()),
    {
        self.ot_name(NAME_ID_DESIGNER, Language::default())
    }

    /// Gets description.
    pub fn description(&self) -> (r: String)
        ensures
            r@ == self.name_text(NAME_ID_DESCRIPTION, Seq::<char>::empty()),
    {
        self.ot_name(NAME_ID_DESCRIPTION, Language::default())
    }

    /// Gets URL of font vendor.
    pub fn vendor_url(&self) -> (r: String)
        ensures
            r@ == self.name_text(NAME_ID_VENDOR_URL, Seq::<char>::empty()),
    {
        self.ot_name(NAME_ID_VENDOR_URL, Language::default())
    }

    /// Gets URL of typeface designer.
    pub fn designer_url(&self) -> (r: String)
        ensures
            r@ == self.name_text(NAME_ID_DESIGNER_URL, Seq::<char>::empty()),
    {
        self.ot_name(NAME_ID_DESIGNER_URL, Language::default())
    }

    /// Gets license description.
    pub fn license(&self) -> (r: String)
        ensures
            r@ == self.name_text(NAME_ID_LICENSE, Seq::<char>::empty()),
    {
        self.ot_name(NAME_ID_LICENSE, Language::default())
    }

    /// Gets URL where additional licensing information can be found.
    pub fn license_url(&self) -> (r: String)
        ensures
            r@ == self.name_text(NAME_ID_LICENSE_URL, Seq::<char>::empty()),
    {
        self.ot_name(NAME_ID_LICENSE_URL, Language::default())
    }

    /// Gets typographic family name.
    pub fn typographic_family(&self) -> (r: String)
        ensures
            r@ == self.name_text(NAME_ID_TYPOGRAPHIC_FAMILY, Seq::<char>::empty()),
    {
        self.ot_name(NAME_ID_TYPOGRAPHIC_FAMILY, Language::default())
    }

    /// Gets typographic subfamily name.
    pub fn typographic_subfamily(&self) -> (r: String)
        ensures
            r@ == self.name_text(NAME_ID_TYPOGRAPHIC_SUBFAMILY, Seq::<char>::empty()),
    {
        self.ot_name(NAME_ID_TYPOGRAPHIC_SUBFAMILY, Language::default())
    }

    /// Gets compatible full name for MacOS.
    pub fn mac_full_name(&self) -> (r: String)
        ensures
            r@ == self.name_text(NAME_ID_MAC_FULL_NAME, Seq::<char>::empty()),
    {
        self.ot_name(NAME_ID_MAC_FULL_NAME, Language::default())
    }

    /// Gets sample text.
    pub fn sample_text(&self) -> (r: String)
        ensures
            r@ == self.name_text(NAME_ID_SAMPLE_TEXT, Seq::<char>::empty()),
    {
        self.ot_name(NAME_ID_SAMPLE_TEXT, Language::default())
    }

    /// Gets PostScript CID findfont name.
    pub fn cid_findfont_name(&self) -> (r: String)
        ensures
            r@ == self.name_text(NAME_ID_CID_FINDFONT_NAME, Seq::<char>::empty()),
    {
        self.ot_name(NAME_ID_CID_FINDFONT_NAME, Language::default())
    }

    /// Gets WWS family name.
    pub fn wws_family(&self) -> (r: String)
        ensures
            r@ == self.name_text(NAME_ID_WWS_FAMILY, Seq::<char>::empty()),
    {
        self.ot_name(NAME_ID_WWS_FAMILY, Language::default())
    }

    /// Gets WWS subfamily name.
    pub fn wws_subfamily(&self) -> (r: String)
        ensures
            r@ == self.name_text(NAME_ID_WWS_SUBFAMILY, Seq::<char>::empty()),
    {
        self.ot_name(NAME_ID_WWS_SUBFAMILY, Language::default())
    }

    /// Gets light background palette.
    pub fn light_background(&self) -> (r: String)
        ensures
            r@ == self.name_text(NAME_ID_LIGHT_BACKGROUND, Seq::<char>::empty()),
    {
        self.ot_name(NAME_ID_LIGHT_BACKGROUND, Language::default())
    }

    /// Gets dark background palette.
    pub fn dark_background(&self) -> (r: String)
        ensures
            r@ == self.name_text(NAME_ID_DARK_BACKGROUND, Seq::<char>::empty()),
    {
        self.ot_name(NAME_ID_DARK_BACKGROUND, Language::default())
    }

    /// Gets variations PostScript name prefix.
    pub fn variations_ps_prefix(&self) -> (r: String)
        ensures
            r@ == self.name_text(NAME_ID_VARIATIONS_PS_PREFIX, Seq::<char>::empty()),
    {
        self.ot_name(NAME_ID_VARIATIONS_PS_PREFIX, Language::default())
    }
}

/// Tests whether every glyph that the character map reaches lies below `glyph_count`.
fn cmap_fits(glyph_count: u32, cmap: &IntMap<char, u32>) -> (r: bool)
    ensures
        r == cmap_in_face(glyph_count, cmap@),
{
    let pairs = cmap.as_raw();
    let mut i: usize = 0;
    while i < pairs.len()
        invariant
            i <= pairs.len(),
            ascending(pairs@),
            to_map(pairs@) == cmap@,
            forall|j: int| 0 <= j < i ==> (#[trigger] pairs@[j]).1 < glyph_count,
        decreases pairs.len() - i,
    {
        if pairs[i].1 >= glyph_count {
            proof {
                lemma_lookup_at(pairs@, i as int);
                assert(cmap@.contains_key(pairs@[i as int].0));
                assert(cmap@[pairs@[i as int].0] == pairs@[i as int].1);
            }
            return false;
        }
        i += 1;
    }
    proof {
        assert forall|c: u32| cmap@.contains_key(c) implies #[trigger] cmap@[c] < glyph_count by {
            crate::pairs::lemma_lookup_some(pairs@, c);
        }
    }
    true
}

/// Tests whether every glyph that the pairs name lies below `glyph_count`.
fn pairs_fit(glyph_count: u32, pairs: &Vec<(u32, u32)>) -> (r: bool)
    ensures
        r == pairs_in_face(glyph_count, pairs@),
{
    let mut i: usize = 0;
    while i < pairs.len()
        invariant
            i <= pairs.len(),
            pairs_in_face(glyph_count, pairs@.take(i as int)),
        decreases pairs.len() - i,
    {
        if pairs[i].0 >= glyph_count || pairs[i].1 >= glyph_count {
            proof {
                let p = pairs@[i as int];
                assert(!(p.0 < glyph_count && p.1 < glyph_count));
            }
            return false;
        }
        i += 1;
        proof {
            assert forall|j: int| 0 <= j < pairs@.take(i as int).len() implies (
            #[trigger] pairs@.take(i as int)[j]).0 < glyph_count && pairs@.take(i as int)[j].1
                < glyph_count by {
                if j < i - 1 {
                    assert(pairs@.take(i - 1)[j] == pairs@[j]);
                }
            }
        }
    }
    proof {
        assert(pairs@.take(pairs.len() as int) =~= pairs@);
    }
    true
}

/// Tests whether every glyph that the rule names lies below `glyph_count`.
fn rule_fits(glyph_count: u32, rule: &Substitution) -> (r: bool)
    ensures
        r == rule_in_face(glyph_count, *rule),
{
    if rule.output >= glyph_count {
        return false;
    }
    let mut j: usize = 0;
    while j < rule.inputs.len()
        invariant
            j <= rule.inputs.len(),
            forall|a: int| 0 <= a < j ==> #[trigger] rule.inputs@[a] < glyph_count,
        decreases rule.inputs.len() - j,
    {
        if rule.inputs[j] >= glyph_count {
            return false;
        }
        j += 1;
    }
    true
}

/// Tests whether every glyph that the rules name lies below `glyph_count`.
fn rules_fit(glyph_count: u32, rules: &Vec<Substitution>) -> (r: bool)
    ensures
        r == rules_in_face(glyph_count, rules@),
{
    let mut i: usize = 0;
    while i < rules.len()
        invariant
            i <= rules.len(),
            forall|a: int| 0 <= a < i ==> rule_in_face(glyph_count, #[trigger] rules@[a]),
        decreases rules.len() - i,
    {
        if !rule_fits(glyph_count, &rules[i]) {
            return false;
        }
        i += 1;
    }
    true
}

} // verus!
