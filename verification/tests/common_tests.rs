use hb_subset::{Language, Tag};

#[test]
fn tag_is_correct() {
    assert_eq!(u32::from(Tag::new([b'D', b'S', b'I', b'G'])), 0x44534947u32);
    assert_eq!(Tag::new([b'D', b'S', b'I', b'G']).debug_string(), "Tag(DSIG)");
    assert_eq!(Tag::new(*b"DSIG").debug_string(), "Tag(DSIG)");
}

#[test]
fn tag_debug_is_correct() {
    assert_eq!(u32::from(Tag::new([b'D', b'S', b'I', b'G'])), 0x44534947u32);
    assert_eq!(Tag::new([b'D', b'S', b'I', b'G']).debug_string(), "Tag(DSIG)");
    assert_eq!(Tag::new(*b"DSIG").debug_string(), "Tag(DSIG)");
}

#[test]
fn language_works() {
    assert_eq!(Language::from_str("").unwrap().to_string(), "[invalid]");
    assert_eq!(Language::from_str("en").unwrap().to_string(), "en");
    assert_eq!(
        Language::from_str("non-existent").unwrap().to_string(),
        "non-existent"
    );
}

#[test]
fn tag_converts_both_ways() {
    let tag = Tag::from(0x636d6170u32);
    assert_eq!(tag, Tag::new(*b"cmap"));
    assert_eq!(tag.to_bytes(), *b"cmap");
    assert_eq!(tag.to_u32(), 0x636d6170);
    assert_eq!(Tag::from_u32(u32::MAX).to_bytes(), [0xff, 0xff, 0xff, 0xff]);
    assert_eq!(Tag::new([0, 0, 0, 1]).to_u32(), 1);
    assert_eq!(Tag::from_u32(0).debug_string(), "Tag(\0\0\0\0)");
}

#[test]
fn default_language_is_the_one_without_tag() {
    let language = Language::default();
    assert!(language.is_default());
    assert!(language.same_as(&Language::from_str("").unwrap()));
    assert!(!language.same_as(&Language::from_str("en").unwrap()));
    assert_eq!(language.clone().to_string(), "[invalid]");
    assert_eq!(language.as_raw(), "");
    assert_eq!(Language::from_str("pt-BR").unwrap().as_raw(), "pt-BR");
}
