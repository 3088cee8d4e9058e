use hb_subset::sfnt::{
    read_records, read_tables, table_bytes, table_checksum, write_font, TableRecord,
};
use hb_subset::{
    Blob, FontFace, FontFaceExtractionError, IntMap, Language, NameRecord, Substitution, Tag,
};

fn be16(v: u16) -> [u8; 2] {
    v.to_be_bytes()
}

fn be32(v: u32) -> [u8; 4] {
    v.to_be_bytes()
}

/// A font file of the given tables: header, directory, then the table data.
fn font_file(tables: &[(&[u8; 4], &[u8])]) -> Vec<u8> {
    let mut out = Vec::new();
    out.extend_from_slice(&be32(0x00010000));
    out.extend_from_slice(&be16(tables.len() as u16));
    out.extend_from_slice(&[0; 6]);
    let mut offset = 12 + 16 * tables.len();
    for (tag, data) in tables {
        out.extend_from_slice(*tag);
        out.extend_from_slice(&be32(0));
        out.extend_from_slice(&be32(offset as u32));
        out.extend_from_slice(&be32(data.len() as u32));
        offset += data.len();
    }
    for (_, data) in tables {
        out.extend_from_slice(data);
    }
    out
}

fn collection(fonts: &[Vec<u8>]) -> Vec<u8> {
    let mut out = Vec::new();
    out.extend_from_slice(b"ttcf");
    out.extend_from_slice(&be16(1));
    out.extend_from_slice(&be16(0));
    out.extend_from_slice(&be32(fonts.len() as u32));
    let mut offset = 12 + 4 * fonts.len();
    for font in fonts {
        out.extend_from_slice(&be32(offset as u32));
        offset += font.len();
    }
    let mut base = 12 + 4 * fonts.len();
    for font in fonts {
        // Table offsets count from the start of the file.
        let mut font = font.clone();
        let count = u16::from_be_bytes([font[4], font[5]]) as usize;
        for i in 0..count {
            let at = 12 + 16 * i + 8;
            let old = u32::from_be_bytes([font[at], font[at + 1], font[at + 2], font[at + 3]]);
            font[at..at + 4].copy_from_slice(&be32(old + base as u32));
        }
        base += font.len();
        out.extend_from_slice(&font);
    }
    out
}

fn load(bytes: &[u8], index: u32) -> Result<FontFace, FontFaceExtractionError> {
    FontFace::new_with_index(Blob::from_bytes(bytes).unwrap(), index)
}

#[test]
fn font_face_underlying_blob_works() {
    let bytes = font_file(&[(b"cmap", &[1, 2, 3]), (b"glyf", &[4, 5])]);
    let blob = Blob::from_bytes(&bytes).unwrap();
    let font_face = FontFace::new(blob.clone()).unwrap();
    assert_eq!(font_face.underlying_blob().as_bytes(), blob.as_bytes());
}

#[test]
fn directory_is_read_in_order() {
    let bytes = font_file(&[(b"glyf", &[4, 5]), (b"cmap", &[1, 2, 3]), (b"name", &[])]);
    let face = load(&bytes, 0).unwrap();
    assert_eq!(
        face.tables(),
        &vec![Tag::new(*b"glyf"), Tag::new(*b"cmap"), Tag::new(*b"name")]
    );
    assert_eq!(face.glyph_count(), 0);
    assert!(face.collect_unicodes().unwrap().is_empty());
    assert_eq!(face.font_family(), "");
    assert!(load(&font_file(&[]), 0).unwrap().tables().is_empty());
}

#[test]
fn malformed_directory_is_an_error() {
    let bytes = font_file(&[(b"cmap", &[1, 2, 3]), (b"glyf", &[4, 5])]);
    assert!(load(&bytes, 0).is_ok());
    // No face but the first in a single font.
    assert_eq!(load(&bytes, 1).err(), Some(FontFaceExtractionError));
    // Too short for a header.
    assert_eq!(load(&[], 0).err(), Some(FontFaceExtractionError));
    assert_eq!(load(&bytes[..11], 0).err(), Some(FontFaceExtractionError));
    // Too short for the records it announces.
    assert_eq!(load(&bytes[..43], 0).err(), Some(FontFaceExtractionError));
    // The last table does not fit.
    assert_eq!(load(&bytes[..bytes.len() - 1], 0).err(), Some(FontFaceExtractionError));
    // Header and records alone, with tables of no length, are fine.
    let empty = font_file(&[(b"cmap", &[]), (b"glyf", &[])]);
    assert_eq!(empty.len(), 44);
    assert!(load(&empty, 0).is_ok());
    // An offset past the end.
    let mut far = bytes.clone();
    far[12 + 8..12 + 12].copy_from_slice(&be32(u32::MAX));
    assert_eq!(load(&far, 0).err(), Some(FontFaceExtractionError));
}

#[test]
fn collection_faces_are_found_by_index() {
    let first = font_file(&[(b"cmap", &[1, 2, 3])]);
    let second = font_file(&[(b"glyf", &[4, 5]), (b"loca", &[6])]);
    let bytes = collection(&[first, second]);
    assert_eq!(load(&bytes, 0).unwrap().tables(), &vec![Tag::new(*b"cmap")]);
    assert_eq!(
        load(&bytes, 1).unwrap().tables(),
        &vec![Tag::new(*b"glyf"), Tag::new(*b"loca")]
    );
    assert_eq!(load(&bytes, 2).err(), Some(FontFaceExtractionError));
    assert_eq!(load(&bytes, u32::MAX).err(), Some(FontFaceExtractionError));
    // A collection that announces more faces than it has offsets for.
    let mut short = bytes.clone();
    short[8..12].copy_from_slice(&be32(1000));
    short.truncate(20);
    assert_eq!(load(&short, 2).err(), Some(FontFaceExtractionError));
}

#[test]
fn parts_must_fit_the_glyph_count() {
    let make = |count: u32, cmap: Vec<(char, u32)>, needs: Vec<(u32, u32)>, rules: Vec<Substitution>| {
        FontFace::from_parts(
            Blob::empty(),
            vec![],
            count,
            IntMap::<char, u32>::from_iter(cmap),
            needs,
            rules,
            vec![],
        )
    };
    let rule = |inputs: Vec<u32>, output: u32| Substitution {
        script: Tag::new(*b"DFLT"),
        feature: Tag::new(*b"liga"),
        inputs,
        output,
    };
    assert!(make(3, vec![('a', 2)], vec![(2, 1)], vec![rule(vec![1, 2], 0)]).is_ok());
    assert!(make(0, vec![], vec![], vec![]).is_ok());
    assert_eq!(make(3, vec![('a', 3)], vec![], vec![]).err(), Some(FontFaceExtractionError));
    assert_eq!(make(3, vec![], vec![(3, 0)], vec![]).err(), Some(FontFaceExtractionError));
    assert_eq!(make(3, vec![], vec![(0, 3)], vec![]).err(), Some(FontFaceExtractionError));
    assert_eq!(
        make(3, vec![], vec![], vec![rule(vec![0], 3)]).err(),
        Some(FontFaceExtractionError)
    );
    assert_eq!(
        make(3, vec![], vec![], vec![rule(vec![0, 7], 1)]).err(),
        Some(FontFaceExtractionError)
    );
    assert_eq!(make(0, vec![('a', 0)], vec![], vec![]).err(), Some(FontFaceExtractionError));
}

#[test]
fn names_are_found_by_id_and_language() {
    let record = |name_id: u32, language: &str, text: &str| NameRecord {
        name_id,
        language: Language::from_str(language).unwrap(),
        text: text.to_string(),
    };
    let face = FontFace::from_parts(
        Blob::empty(),
        vec![],
        1,
        IntMap::new().unwrap(),
        vec![],
        vec![],
        vec![
            record(1, "de", "Musterschrift"),
            record(1, "en", "Model Sans"),
            record(1, "en", "Second Entry"),
            record(2, "en", "Regular"),
            record(0, "en", "Copyright 2022 The Model Project Authors"),
            record(6, "en", "ModelSans-Regular"),
            record(25, "en", "ModelSansVar"),
            record(13, "fr", "Licence"),
        ],
    )
    .unwrap();
    assert_eq!(face.font_family(), "Model Sans");
    assert_eq!(face.font_subfamily(), "Regular");
    assert_eq!(face.copyright(), "Copyright 2022 The Model Project Authors");
    assert_eq!(face.postscript_name(), "ModelSans-Regular");
    assert_eq!(face.variations_ps_prefix(), "ModelSansVar");
    assert_eq!(face.ot_name(1, Language::from_str("de").unwrap()), "Musterschrift");
    assert_eq!(face.ot_name(1, Language::default()), "Model Sans");
    assert_eq!(face.ot_name(13, Language::from_str("fr").unwrap()), "Licence");
    assert_eq!(face.ot_name(1, Language::from_str("fr").unwrap()), "");
    for absent in [
        face.unique_id(),
        face.full_name(),
        face.version_string(),
        face.trademark(),
        face.manufacturer(),
        face.designer(),
        face.description(),
        face.vendor_url(),
        face.designer_url(),
        face.license(),
        face.license_url(),
        face.typographic_family(),
        face.typographic_subfamily(),
        face.mac_full_name(),
        face.sample_text(),
        face.cid_findfont_name(),
        face.wws_family(),
        face.wws_subfamily(),
        face.light_background(),
        face.dark_background(),
    ] {
        assert_eq!(absent, "");
    }
}

#[test]
fn every_named_accessor_reads_its_own_id() {
    let names: Vec<NameRecord> = (0..26)
        .map(|id| NameRecord {
            name_id: id,
            language: Language::from_str("en").unwrap(),
            text: format!("name {id}"),
        })
        .collect();
    let face = FontFace::from_parts(
        Blob::empty(),
        vec![],
        0,
        IntMap::new().unwrap(),
        vec![],
        vec![],
        names,
    )
    .unwrap();
    assert_eq!(face.copyright(), "name 0");
    assert_eq!(face.font_family(), "name 1");
    assert_eq!(face.font_subfamily(), "name 2");
    assert_eq!(face.unique_id(), "name 3");
    assert_eq!(face.full_name(), "name 4");
    assert_eq!(face.version_string(), "name 5");
    assert_eq!(face.postscript_name(), "name 6");
    assert_eq!(face.trademark(), "name 7");
    assert_eq!(face.manufacturer(), "name 8");
    assert_eq!(face.designer(), "name 9");
    assert_eq!(face.description(), "name 10");
    assert_eq!(face.vendor_url(), "name 11");
    assert_eq!(face.designer_url(), "name 12");
    assert_eq!(face.license(), "name 13");
    assert_eq!(face.license_url(), "name 14");
    assert_eq!(face.typographic_family(), "name 16");
    assert_eq!(face.typographic_subfamily(), "name 17");
    assert_eq!(face.mac_full_name(), "name 18");
    assert_eq!(face.sample_text(), "name 19");
    assert_eq!(face.cid_findfont_name(), "name 20");
    assert_eq!(face.wws_family(), "name 21");
    assert_eq!(face.wws_subfamily(), "name 22");
    assert_eq!(face.light_background(), "name 23");
    assert_eq!(face.dark_background(), "name 24");
    assert_eq!(face.variations_ps_prefix(), "name 25");
}

#[test]
fn checksum_adds_big_endian_words() {
    assert_eq!(table_checksum(&vec![]), 0);
    assert_eq!(table_checksum(&vec![0, 0, 0, 1]), 1);
    assert_eq!(table_checksum(&vec![1, 2, 3, 4]), 0x01020304);
    assert_eq!(table_checksum(&vec![1, 2, 3, 4, 5]), 0x01020304 + 0x05000000);
    assert_eq!(table_checksum(&vec![1, 2, 3, 4, 5, 6, 7]), 0x01020304 + 0x05060700);
    assert_eq!(table_checksum(&vec![0xff, 0xff, 0xff, 0xff, 0, 0, 0, 2]), 1);
    assert_eq!(table_checksum(&vec![0x80, 0, 0, 0, 0x80, 0, 0, 0, 0, 0, 0, 7]), 7);
}

#[test]
fn written_font_has_the_expected_bytes() {
    let tables = vec![
        (Tag::new(*b"cmap"), vec![1, 2, 3, 4, 5]),
        (Tag::new(*b"glyf"), vec![]),
        (Tag::new(*b"head"), vec![9, 8, 7, 6]),
    ];
    let bytes = write_font(0x00010000, &tables).unwrap();
    let mut expected = vec![0, 1, 0, 0, 0, 3, 0, 32, 0, 1, 0, 16];
    expected.extend_from_slice(b"cmap");
    expected.extend_from_slice(&[0x06, 0x02, 0x03, 0x04, 0, 0, 0, 60, 0, 0, 0, 5]);
    expected.extend_from_slice(b"glyf");
    expected.extend_from_slice(&[0, 0, 0, 0, 0, 0, 0, 68, 0, 0, 0, 0]);
    expected.extend_from_slice(b"head");
    expected.extend_from_slice(&[9, 8, 7, 6, 0, 0, 0, 68, 0, 0, 0, 4]);
    expected.extend_from_slice(&[1, 2, 3, 4, 5, 0, 0, 0]);
    expected.extend_from_slice(&[9, 8, 7, 6]);
    assert_eq!(bytes, expected);
    assert_eq!(bytes.len(), 72);
}

#[test]
fn search_fields_follow_the_table_count() {
    let header = |count: usize| {
        let tables: Vec<(Tag, Vec<u8>)> =
            (0..count).map(|i| (Tag::from_u32(i as u32), vec![])).collect();
        write_font(0x4f54544f, &tables).unwrap()[..12].to_vec()
    };
    assert_eq!(header(0), vec![0x4f, 0x54, 0x54, 0x4f, 0, 0, 0, 0, 0, 0, 0, 0]);
    assert_eq!(header(1)[4..], [0, 1, 0, 16, 0, 0, 0, 0]);
    assert_eq!(header(2)[4..], [0, 2, 0, 32, 0, 1, 0, 0]);
    assert_eq!(header(7)[4..], [0, 7, 0, 64, 0, 2, 0, 48]);
    assert_eq!(header(16)[4..], [0, 16, 1, 0, 0, 4, 0, 0]);
    assert_eq!(header(17)[4..], [0, 17, 1, 0, 0, 4, 0, 16]);
}

#[test]
fn written_font_reads_back() {
    let tables = vec![
        (Tag::new(*b"name"), vec![7; 13]),
        (Tag::new(*b"cmap"), vec![1, 2, 3]),
        (Tag::new(*b"maxp"), vec![0, 0, 0x50, 0, 0, 9]),
    ];
    let bytes = write_font(0x74727565, &tables).unwrap();
    let records = read_records(&bytes, 0).unwrap();
    assert_eq!(
        records,
        vec![
            TableRecord { tag: Tag::new(*b"name"), checksum: 0x1c151515, offset: 60, length: 13 },
            TableRecord { tag: Tag::new(*b"cmap"), checksum: 0x01020300, offset: 76, length: 3 },
            TableRecord { tag: Tag::new(*b"maxp"), checksum: 0x00095000, offset: 80, length: 6 },
        ]
    );
    for (record, (_, data)) in records.iter().zip(tables.iter()) {
        assert_eq!(&table_bytes(&bytes, *record).unwrap(), data);
        assert_eq!(record.checksum, table_checksum(data));
    }
    let face = FontFace::new(Blob::from_bytes(&bytes).unwrap()).unwrap();
    assert_eq!(
        face.tables(),
        &vec![Tag::new(*b"name"), Tag::new(*b"cmap"), Tag::new(*b"maxp")]
    );
    assert_eq!(bytes.len(), 88);
    assert_eq!(read_records(&bytes, 1), None);
    let beyond = TableRecord { tag: Tag::new(*b"none"), checksum: 0, offset: 80, length: 9 };
    assert_eq!(table_bytes(&bytes, beyond), None);
}

#[test]
fn too_many_tables_cannot_be_written() {
    let tables: Vec<(Tag, Vec<u8>)> =
        (0..4096).map(|i| (Tag::from_u32(i as u32), vec![])).collect();
    assert_eq!(write_font(0x00010000, &tables), None);
    assert!(write_font(0x00010000, &tables[..4095].to_vec()).is_some());
}

#[test]
fn font_face_convert_into_raw_and_back() {
    let bytes = font_file(&[(b"cmap", &[1, 2, 3]), (b"glyf", &[4, 5])]);
    let font_face = FontFace::new(Blob::from_bytes(&bytes).unwrap()).unwrap();
    let raw = font_face.into_raw();
    let font_face = FontFace::from_raw(raw);
    assert_eq!(font_face.tables(), &vec![Tag::new(*b"cmap"), Tag::new(*b"glyf")]);
    assert_eq!(font_face.as_raw().glyph_count, 0);
    assert_eq!(font_face.get_glyph_count(), font_face.glyph_count());
    drop(font_face);
}

#[test]
fn tables_are_read_in_directory_order() {
    let bytes = font_file(&[(b"glyf", &[4, 5]), (b"cmap", &[1, 2, 3]), (b"name", &[])]);
    assert_eq!(read_tables(&bytes, 0), Some(vec![vec![4, 5], vec![1, 2, 3], vec![]]));
    assert_eq!(read_tables(&bytes, 1), None);
    assert_eq!(read_tables(&bytes[..bytes.len() - 1].to_vec(), 0), None);
}
