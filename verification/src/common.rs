//! Small value types shared by the whole crate.

use crate::error::AllocationError;
use crate::text::push_char;
use vstd::prelude::*;
use vstd::std_specs::convert::FromSpecImpl;

verus! {

/// The four bytes of a tag packed big-endian into one integer.
pub open spec fn pack_tag(b0: u8, b1: u8, b2: u8, b3: u8) -> u32 {
    ((b0 as u32) << 24 | (b1 as u32) << 16 | (b2 as u32) << 8 | (b3 as u32)) as u32
}

/// Byte `i` of the big-endian form of `v`, counted from the most significant one.
pub open spec fn tag_byte(v: u32, i: int) -> u8 {
    if i == 0 {
        (v >> 24) as u8
    } else if i == 1 {
        ((v >> 16) & 0xff) as u8
    } else if i == 2 {
        ((v >> 8) & 0xff) as u8
    } else {
        (v & 0xff) as u8
    }
}

/// Packing the four bytes of a value gives the value back, and unpacking a packed value
/// gives its bytes back.
pub proof fn lemma_tag_round_trip(v: u32, b0: u8, b1: u8, b2: u8, b3: u8)
    ensures
        pack_tag(tag_byte(v, 0), tag_byte(v, 1), tag_byte(v, 2), tag_byte(v, 3)) == v,
        tag_byte(pack_tag(b0, b1, b2, b3), 0) == b0,
        tag_byte(pack_tag(b0, b1, b2, b3), 1) == b1,
        tag_byte(pack_tag(b0, b1, b2, b3), 2) == b2,
        tag_byte(pack_tag(b0, b1, b2, b3), 3) == b3,
{
    assert(((((v >> 24) as u8) as u32) << 24 | ((((v >> 16) & 0xff) as u8) as u32) << 16 | ((((v
        >> 8) & 0xff) as u8) as u32) << 8 | (((v & 0xff) as u8) as u32)) == v) by (bit_vector);
    assert((((b0 as u32) << 24 | (b1 as u32) << 16 | (b2 as u32) << 8 | (b3 as u32)) >> 24) as u8
        == b0) by (bit_vector);
    assert(((((b0 as u32) << 24 | (b1 as u32) << 16 | (b2 as u32) << 8 | (b3 as u32)) >> 16)
        & 0xff) as u8 == b1) by (bit_vector);
    assert(((((b0 as u32) << 24 | (b1 as u32) << 16 | (b2 as u32) << 8 | (b3 as u32)) >> 8)
        & 0xff) as u8 == b2) by (bit_vector);
    assert((((b0 as u32) << 24 | (b1 as u32) << 16 | (b2 as u32) << 8 | (b3 as u32)) & 0xff) as u8
        == b3) by (bit_vector);
}

/// Four byte integers, each byte representing a character.
///
/// Tags are used to identify tables, design-variation axes, scripts, languages, font features,
/// and baselines with human-readable names.
#[derive(Clone, Copy, Debug, PartialEq, Eq, Structural)]
pub struct Tag(pub u32);

impl View for Tag {
    type V = u32;

    open spec fn view(&self) -> u32 {
        self.0
    }
}

impl Tag {
    /// Constructs a new tag from bytes.
    pub fn new(tag: [u8; 4]) -> (r: Tag)
        ensures
            r@ == pack_tag(tag[0], tag[1], tag[2], tag[3]),
    {
        let b0: u32 = tag[0] as u32;
        let b1: u32 = tag[1] as u32;
        let b2: u32 = tag[2] as u32;
        let b3: u32 = tag[3] as u32;
        Tag(b0 << 24 | b1 << 16 | b2 << 8 | b3)
    }

    /// The tag as one integer.
    pub fn to_u32(self) -> (r: u32)
        ensures
            r == self@,
    {
        self.0
    }

    /// The tag that the integer `tag` stands for.
    pub fn from_u32(tag: u32) -> (r: Tag)
        ensures
            r@ == tag,
    {
        Tag(tag)
    }

    /// The four bytes of the tag, most significant first.
    pub fn to_bytes(self) -> (r: [u8; 4])
        ensures
            forall|i: int| 0 <= i < 4 ==> #[trigger] r[i] == tag_byte(self@, i),
    {
        let v = self.0;
        let b0: u8 = (v >> 24) as u8;
        let b1: u8 = ((v >> 16) & 0xff) as u8;
        let b2: u8 = ((v >> 8) & 0xff) as u8;
        let b3: u8 = (v & 0xff) as u8;
        [b0, b1, b2, b3]
    }
}

impl Tag {
    /// The tag as text for a reader: `Tag(` and `)` around its four bytes as characters.
    pub fn debug_string(&self) -> (r: String)
        ensures
            r@ == "Tag("@ + seq![
                tag_byte(self@, 0) as char,
                tag_byte(self@, 1) as char,
                tag_byte(self@, 2) as char,
                tag_byte(self@, 3) as char,
            ] + ")"@,
    {
        let bytes = self.to_bytes();
        let mut out = "Tag(".to_owned();
        push_char(&mut out, bytes[0] as char);
        push_char(&mut out, bytes[1] as char);
        push_char(&mut out, bytes[2] as char);
        push_char(&mut out, bytes[3] as char);
        push_char(&mut out, ')');
        proof {
            reveal_strlit(")");
            assert(out@ =~= "Tag("@ + seq![
                tag_byte(self@, 0) as char,
                tag_byte(self@, 1) as char,
                tag_byte(self@, 2) as char,
                tag_byte(self@, 3) as char,
            ] + ")"@);
        }
        out
    }
}

impl From<Tag> for u32 {
    fn from(tag: Tag) -> (r: u32) {
        tag.0
    }
}

impl FromSpecImpl<Tag> for u32 {
    open spec fn obeys_from_spec() -> bool {
        true
    }

    open spec fn from_spec(tag: Tag) -> u32 {
        tag.0
    }
}

impl From<u32> for Tag {
    fn from(tag: u32) -> (r: Tag) {
        Tag(tag)
    }
}

impl FromSpecImpl<u32> for Tag {
    open spec fn obeys_from_spec() -> bool {
        true
    }

    open spec fn from_spec(tag: u32) -> Tag {
        Tag(tag)
    }
}

/// Data type for languages.
///
/// Corresponds to a BCP 47 language tag. The language without a tag is the default: where a
/// language is asked for, it stands for English.
#[derive(Debug)]
pub struct Language {
    tag: String,
}

impl View for Language {
    type V = Seq<char>;

    /// The characters of the language tag; none for the default language.
    closed spec fn view(&self) -> Seq<char> {
        self.tag@
    }
}

impl Language {
    /// The language that the tag `s` names; the default language for the empty tag.
    pub fn from_str(s: &str) -> (r: Result<Self, AllocationError>)
        ensures
            r is Ok,
            r->Ok_0@ == s@,
    {
        Ok(Language { tag: s.to_owned() })
    }

    /// The tag of the language, and `[invalid]` for the default language.
    pub fn to_string(&self) -> (r: String)
        ensures
            r@ == if self@.len() == 0 {
                "[invalid]"@
            } else {
                self@
            },
    {
        if self.tag.as_str().unicode_len() == 0 {
            "[invalid]".to_owned()
        } else {
            self.tag.clone()
        }
    }

    /// Exposes the raw form of the language: its tag, empty for the default language.
    pub fn as_raw(&self) -> (r: &str)
        ensures
            r@ == self@,
    {
        self.tag.as_str()
    }

    /// Tests whether this is the default language, the one without a tag.
    pub fn is_default(&self) -> (r: bool)
        ensures
            r == (self@.len() == 0),
    {
        self.tag.as_str().unicode_len() == 0
    }

    /// Tests whether two languages have the same tag.
    pub fn same_as(&self, other: &Language) -> (r: bool)
        ensures
            r == (self@ == other@),
    {
        self.tag == other.tag
    }
}

impl Clone for Language {
    fn clone(&self) -> (r: Self)
        ensures
            r@ == self@,
    {
        Language { tag: self.tag.clone() }
    }
}

impl Default for Language {
    fn default() -> (r: Self)
        ensures
            r@ == Seq::<char>::empty(),
    {
        let r = Language { tag: String::new() };
        r
    }
}

} // verus!
