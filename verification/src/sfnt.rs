//! The table directory at the head of a font file.
//!
//! A font file starts with a header of 12 bytes, whose fifth and sixth byte give the number
//! of tables, followed by one record of 16 bytes for each table: its tag, its checksum, its
//! offset in the file and its length, all big-endian. A collection starts with the tag
//! `ttcf`, a version, the number of fonts and one offset for the header of each font.

use crate::common::{lemma_tag_round_trip, pack_tag, Tag};
use vstd::prelude::*;

verus! {

/// The big-endian number in the two bytes at `at`.
pub open spec fn be16(b: Seq<u8>, at: int) -> int {
    b[at] * 0x100 + b[at + 1]
}

/// The big-endian number in the four bytes at `at`.
pub open spec fn be32(b: Seq<u8>, at: int) -> int {
    b[at] * 0x1000000 + b[at + 1] * 0x10000 + b[at + 2] * 0x100 + b[at + 3]
}

/// Whether the bytes start as a collection of fonts does.
pub open spec fn is_collection(b: Seq<u8>) -> bool {
    b.len() >= 12 && b[0] == 0x74 && b[1] == 0x74 && b[2] == 0x63 && b[3] == 0x66
}

/// Where the header of face `index` starts: in a collection where the offset of that face
/// says, provided the collection has that many faces; else at the start, for face 0 only.
pub open spec fn directory_start(b: Seq<u8>, index: u32) -> Option<int> {
    if is_collection(b) {
        if index < be32(b, 8) && 12 + 4 * (index + 1) <= b.len() {
            Some(be32(b, 12 + 4 * index))
        } else {
            None
        }
    } else if index == 0 {
        Some(0)
    } else {
        None
    }
}

/// The number of tables that the header at `start` announces.
pub open spec fn table_count(b: Seq<u8>, start: int) -> int {
    be16(b, start + 4)
}

/// Where record `i` of the directory at `start` begins.
pub open spec fn record_at(start: int, i: int) -> int {
    start + 12 + 16 * i
}

/// Whether the table of record `i` lies within the bytes.
pub open spec fn table_in_file(b: Seq<u8>, start: int, i: int) -> bool {
    be32(b, record_at(start, i) + 8) + be32(b, record_at(start, i) + 12) <= b.len()
}

/// Whether the directory at `start` is sound: the header and all records that it announces
/// lie within the bytes, and so does every table that a record describes.
pub open spec fn directory_ok(b: Seq<u8>, start: int) -> bool {
    &&& 0 <= start
    &&& start + 12 <= b.len()
    &&& record_at(start, table_count(b, start)) <= b.len()
    &&& forall|i: int| 0 <= i < table_count(b, start) ==> #[trigger] table_in_file(b, start, i)
}

/// The tag of record `i` of the directory at `start`.
pub open spec fn tag_at(b: Seq<u8>, start: int, i: int) -> Tag {
    let r = record_at(start, i);
    Tag(pack_tag(b[r], b[r + 1], b[r + 2], b[r + 3]))
}

/// The tags of the tables, in the order of the directory at `start`.
pub open spec fn directory_tags(b: Seq<u8>, start: int) -> Seq<Tag> {
    Seq::new(table_count(b, start) as nat, |i: int| tag_at(b, start, i))
}

/// Reads the big-endian number in the two bytes at `at`.
fn read_u16(bytes: &Vec<u8>, at: usize) -> (r: u64)
    requires
        at + 2 <= bytes.len(),
    ensures
        r == be16(bytes@, at as int),
        r <= 0xffff,
{
    let hi: u64 = bytes[at] as u64;
    let lo: u64 = bytes[at + 1] as u64;
    hi * 0x100 + lo
}

/// Reads the big-endian number in the four bytes at `at`.
fn read_u32(bytes: &Vec<u8>, at: usize) -> (r: u64)
    requires
        at + 4 <= bytes.len(),
    ensures
        r == be32(bytes@, at as int),
        r <= 0xffff_ffff,
{
    let b0: u64 = bytes[at] as u64;
    let b1: u64 = bytes[at + 1] as u64;
    let b2: u64 = bytes[at + 2] as u64;
    let b3: u64 = bytes[at + 3] as u64;
    b0 * 0x1000000 + b1 * 0x10000 + b2 * 0x100 + b3
}

/// Finds where the header of face `index` starts.
fn find_directory(bytes: &Vec<u8>, index: u32) -> (r: Option<u64>)
    ensures
        match r {
            Some(start) => directory_start(bytes@, index) == Some(start as int) && start
                <= 0xffff_ffff,
            None => directory_start(bytes@, index) is None,
        },
{
    let len = bytes.len();
    if len >= 12 && bytes[0] == 0x74 && bytes[1] == 0x74 && bytes[2] == 0x63 && bytes[3] == 0x66 {
        let fonts = read_u32(bytes, 8);
        let need: u64 = 12 + 4 * (index as u64 + 1);
        if (index as u64) < fonts && need <= len as u64 {
            Some(read_u32(bytes, (need - 4) as usize))
        } else {
            None
        }
    } else if index == 0 {
        Some(0)
    } else {
        None
    }
}

/// One record of a table directory.
#[derive(Clone, Copy, Debug, PartialEq, Eq, Structural)]
pub struct TableRecord {
    /// The tag of the table.
    pub tag: Tag,
    /// The checksum of the table.
    pub checksum: u32,
    /// Where the table starts, counted from the start of the file.
    pub offset: u32,
    /// The length of the table in bytes, without padding.
    pub length: u32,
}

/// Record `i` of the directory at `start`.
pub open spec fn record_of(b: Seq<u8>, start: int, i: int) -> TableRecord {
    let r = record_at(start, i);
    TableRecord {
        tag: tag_at(b, start, i),
        checksum: be32(b, r + 4) as u32,
        offset: be32(b, r + 8) as u32,
        length: be32(b, r + 12) as u32,
    }
}

/// The records of the directory at `start`, in their order.
pub open spec fn directory_records(b: Seq<u8>, start: int) -> Seq<TableRecord> {
    Seq::new(table_count(b, start) as nat, |i: int| record_of(b, start, i))
}

/// Reads the records of the table directory of face `index`.
///
/// Gives the records in the order of the directory; nothing when the bytes have no face of
/// that index or the directory is not sound.
pub fn read_records(bytes: &Vec<u8>, index: u32) -> (r: Option<Vec<TableRecord>>)
    ensures
        r is Some <==> (directory_start(bytes@, index) matches Some(start) && directory_ok(
            bytes@,
            start,
        )),
        r matches Some(records) ==> records@ == directory_records(
            bytes@,
            directory_start(bytes@, index)->0,
        ),
{
    let start = match find_directory(bytes, index) {
        Some(start) => start,
        None => {
            return None;
        },
    };
    let len: u64 = bytes.len() as u64;
    if start + 12 > len {
        return None;
    }
    let count = read_u16(bytes, (start + 4) as usize);
    if start + 12 + 16 * count > len {
        return None;
    }
    let mut records: Vec<TableRecord> = Vec::new();
    let mut i: u64 = 0;
    while i < count
        invariant
            i <= count,
            directory_start(bytes@, index) == Some(start as int),
            count == table_count(bytes@, start as int),
            count <= 0xffff,
            start <= 0xffff_ffff,
            len == bytes.len(),
            start + 12 + 16 * count <= len,
            records.len() == i,
            forall|a: int| 0 <= a < i ==> #[trigger] table_in_file(bytes@, start as int, a),
            forall|a: int|
                0 <= a < i ==> #[trigger] records@[a] == record_of(bytes@, start as int, a),
        decreases count - i,
    {
        let at: usize = (start + 12 + 16 * i) as usize;
        let checksum = read_u32(bytes, at + 4);
        let offset = read_u32(bytes, at + 8);
        let length = read_u32(bytes, at + 12);
        if offset + length > len {
            proof {
                assert(!table_in_file(bytes@, start as int, i as int));
            }
            return None;
        }
        let tag = Tag::new([bytes[at], bytes[at + 1], bytes[at + 2], bytes[at + 3]]);
        records.push(
            TableRecord {
                tag,
                checksum: checksum as u32,
                offset: offset as u32,
                length: length as u32,
            },
        );
        i += 1;
    }
    proof {
        assert(records@ =~= directory_records(bytes@, start as int));
    }
    Some(records)
}

/// Reads the table directory of face `index`.
///
/// Gives the tags of the tables in the order of the directory; nothing when the bytes have no
/// face of that index or the directory is not sound.
pub fn read_directory(bytes: &Vec<u8>, index: u32) -> (r: Option<Vec<Tag>>)
    ensures
        r is Some <==> (directory_start(bytes@, index) matches Some(start) && directory_ok(
            bytes@,
            start,
        )),
        r matches Some(tags) ==> tags@ == directory_tags(bytes@, directory_start(bytes@, index)->0),
{
    let records = match read_records(bytes, index) {
        Some(records) => records,
        None => {
            return None;
        },
    };
    let ghost start = directory_start(bytes@, index)->0;
    let mut tags: Vec<Tag> = Vec::new();
    let mut i: usize = 0;
    while i < records.len()
        invariant
            i <= records.len(),
            records@ == directory_records(bytes@, start),
            tags.len() == i,
            forall|a: int| 0 <= a < i ==> #[trigger] tags@[a] == tag_at(bytes@, start, a),
        decreases records.len() - i,
    {
        tags.push(records[i].tag);
        i += 1;
    }
    proof {
        assert(tags@ =~= directory_tags(bytes@, start));
    }
    Some(tags)
}

/// The bytes of the table that the record describes.
///
/// Gives nothing when the table does not lie within the bytes.
pub fn table_bytes(bytes: &Vec<u8>, record: TableRecord) -> (r: Option<Vec<u8>>)
    ensures
        r is Some <==> record.offset + record.length <= bytes@.len(),
        r matches Some(data) ==> data@ == bytes@.subrange(
            record.offset as int,
            record.offset + record.length,
        ),
{
    if record.offset as u64 + record.length as u64 > bytes.len() as u64 {
        return None;
    }
    let from: usize = record.offset as usize;
    let n: usize = record.length as usize;
    let mut out: Vec<u8> = Vec::new();
    let mut i: usize = 0;
    while i < n
        invariant
            i <= n,
            from + n <= bytes.len(),
            out@ == bytes@.subrange(from as int, from + i),
        decreases n - i,
    {
        out.push(bytes[from + i]);
        i += 1;
        proof {
            assert(out@ =~= bytes@.subrange(from as int, from + i));
        }
    }
    Some(out)
}

/// The bytes of every table of the directory, in the order of the directory.
pub open spec fn directory_tables(b: Seq<u8>, start: int) -> Seq<Seq<u8>> {
    Seq::new(
        table_count(b, start) as nat,
        |i: int|
            b.subrange(
                record_of(b, start, i).offset as int,
                record_of(b, start, i).offset + record_of(b, start, i).length,
            ),
    )
}

/// Reads the bytes of every table of face `index`, in the order of its table directory.
///
/// Gives nothing when the bytes have no face of that index or the directory is not sound.
pub fn read_tables(bytes: &Vec<u8>, index: u32) -> (r: Option<Vec<Vec<u8>>>)
    ensures
        r is Some <==> (directory_start(bytes@, index) matches Some(start) && directory_ok(
            bytes@,
            start,
        )),
        r matches Some(tables) ==> byte_views(tables@) == directory_tables(
            bytes@,
            directory_start(bytes@, index)->0,
        ),
{
    let records = match read_records(bytes, index) {
        Some(records) => records,
        None => {
            return None;
        },
    };
    let ghost start = directory_start(bytes@, index)->0;
    let mut tables: Vec<Vec<u8>> = Vec::new();
    let mut i: usize = 0;
    while i < records.len()
        invariant
            i <= records.len(),
            directory_ok(bytes@, start),
            records@ == directory_records(bytes@, start),
            tables.len() == i,
            forall|a: int|
                0 <= a < i ==> (#[trigger] tables@[a])@ == directory_tables(bytes@, start)[a],
        decreases records.len() - i,
    {
        let record = records[i];
        proof {
            assert(table_in_file(bytes@, start, i as int));
            assert(record == record_of(bytes@, start, i as int));
        }
        match table_bytes(bytes, record) {
            Some(data) => {
                tables.push(data);
            },
            None => {
                return None;
            },
        }
        i += 1;
    }
    proof {
        assert(byte_views(tables@) =~= directory_tables(bytes@, start));
    }
    Some(tables)
}

/// The byte strings as plain values.
pub open spec fn byte_views(items: Seq<Vec<u8>>) -> Seq<Seq<u8>> {
    Seq::new(items.len(), |i: int| items[i]@)
}

/// Byte `i` of the data, and 0 beyond its end.
pub open spec fn byte_or_zero(d: Seq<u8>, i: int) -> int {
    if 0 <= i < d.len() {
        d[i] as int
    } else {
        0
    }
}

/// The big-endian number in the four bytes of word `w` of the data, zeros standing in for
/// bytes beyond its end.
pub open spec fn word(d: Seq<u8>, w: int) -> int {
    byte_or_zero(d, 4 * w) * 0x1000000 + byte_or_zero(d, 4 * w + 1) * 0x10000 + byte_or_zero(
        d,
        4 * w + 2,
    ) * 0x100 + byte_or_zero(d, 4 * w + 3)
}

/// The sum of the first `n` words of the data, wrapping at 32 bits.
pub open spec fn checksum_upto(d: Seq<u8>, n: int) -> int
    decreases n,
{
    if n <= 0 {
        0
    } else {
        (checksum_upto(d, n - 1) + word(d, n - 1)) % 0x1_0000_0000
    }
}

/// The checksum of a table: the sum of its big-endian 32-bit words, the last one padded
/// with zeros, wrapping at 32 bits.
pub open spec fn checksum_of(d: Seq<u8>) -> int {
    checksum_upto(d, (d.len() as int + 3) / 4)
}

/// Computes the checksum of a table.
pub fn table_checksum(data: &Vec<u8>) -> (r: u32)
    ensures
        r == checksum_of(data@),
{
    let len = data.len();
    let words: usize = len / 4 + if len % 4 == 0 {
        0
    } else {
        1
    };
    let mut sum: u64 = 0;
    let mut w: usize = 0;
    while w < words
        invariant
            w <= words,
            len == data.len(),
            words == (len + 3) / 4,
            sum == checksum_upto(data@, w as int),
            sum < 0x1_0000_0000,
        decreases words - w,
    {
        let at = 4 * w;
        let b0: u64 = data[at] as u64;
        let b1: u64 = if at + 1 < len {
            data[at + 1] as u64
        } else {
            0
        };
        let b2: u64 = if at + 2 < len {
            data[at + 2] as u64
        } else {
            0
        };
        let b3: u64 = if at + 3 < len {
            data[at + 3] as u64
        } else {
            0
        };
        let value: u64 = b0 * 0x1000000 + b1 * 0x10000 + b2 * 0x100 + b3;
        assert(value == word(data@, w as int));
        sum = (sum + value) % 0x1_0000_0000;
        w += 1;
    }
    sum as u32
}

/// The length of a table with the padding that brings the next table to a multiple of 4.
pub open spec fn padded(len: int) -> int {
    if len % 4 == 0 {
        len
    } else {
        len + 4 - len % 4
    }
}

/// Where table `i` starts in the file that is written for `tables`: right after the header,
/// the records and the padded tables before it.
pub open spec fn offset_of(tables: Seq<(Tag, Seq<u8>)>, i: int) -> int
    decreases i,
{
    if i <= 0 {
        12 + 16 * (tables.len() as int)
    } else {
        offset_of(tables, i - 1) + padded(tables[i - 1].1.len() as int)
    }
}

/// The tables as plain values: each tag with the bytes of its table.
pub open spec fn table_views(tables: Seq<(Tag, Vec<u8>)>) -> Seq<(Tag, Seq<u8>)> {
    Seq::new(tables.len(), |i: int| (tables[i].0, tables[i].1@))
}

/// Tables start later the later they come.
pub proof fn lemma_offsets_ascend(tables: Seq<(Tag, Seq<u8>)>, i: int, j: int)
    requires
        0 <= i <= j,
    ensures
        offset_of(tables, i) <= offset_of(tables, j),
        offset_of(tables, i) >= 12 + 16 * tables.len(),
        offset_of(tables, i) % 4 == 0,
    decreases j - i, i,
{
    if i < j {
        lemma_offsets_ascend(tables, i, j - 1);
    } else if i > 0 {
        lemma_offsets_ascend(tables, i - 1, i - 1);
    }
}

/// Two to the power `e`.
pub open spec fn pow2(e: nat) -> int
    decreases e,
{
    if e == 0 {
        1
    } else {
        2 * pow2((e - 1) as nat)
    }
}

/// Whether `selector` is the greatest exponent whose power of two does not exceed `n`; for
/// no tables at all, the exponent 0 stands in.
pub open spec fn is_entry_selector(n: int, selector: int) -> bool {
    &&& 0 <= selector
    &&& n == 0 ==> selector == 0
    &&& n > 0 ==> pow2(selector as nat) <= n < 2 * pow2(selector as nat)
}

/// The three search fields of the header for `n` tables: 16 times the greatest power of two
/// that does not exceed `n`, the exponent of that power, and what 16 times `n` exceeds the
/// first field by. For no tables all three are 0.
pub open spec fn search_fields(n: int, selector: int) -> (int, int, int) {
    if n == 0 {
        (0, 0, 0)
    } else {
        (16 * pow2(selector as nat), selector, 16 * n - 16 * pow2(selector as nat))
    }
}

/// Finds the exponent of the greatest power of two that does not exceed `n`, and the power.
fn entry_selector(n: u64) -> (r: (u64, u64))
    requires
        n <= 0xfff,
    ensures
        is_entry_selector(n as int, r.0 as int),
        r.1 == pow2(r.0 as nat),
        r.0 < r.1 <= 0xfff,
        n > 0 ==> r.1 <= n,
{
    let mut e: u64 = 0;
    let mut p: u64 = 1;
    while p * 2 <= n
        invariant
            n <= 0xfff,
            p == pow2(e as nat),
            1 <= p <= 0xfff,
            n > 0 ==> p <= n,
            n == 0 ==> e == 0,
            e < p,
        decreases n - p,
    {
        p = p * 2;
        e = e + 1;
    }
    (e, p)
}

/// Appends the big-endian form of `v` in two bytes.
fn push_u16(out: &mut Vec<u8>, v: u64)
    requires
        v <= 0xffff,
    ensures
        final(out)@.len() == old(out)@.len() + 2,
        old(out)@.is_prefix_of(final(out)@),
        be16(final(out)@, old(out)@.len() as int) == v,
{
    let ghost before = out@;
    out.push((v / 0x100) as u8);
    out.push((v % 0x100) as u8);
    proof {
        assert(before.is_prefix_of(out@));
    }
}

/// Appends the big-endian form of `v` in four bytes.
fn push_u32(out: &mut Vec<u8>, v: u64)
    requires
        v <= 0xffff_ffff,
    ensures
        final(out)@.len() == old(out)@.len() + 4,
        old(out)@.is_prefix_of(final(out)@),
        be32(final(out)@, old(out)@.len() as int) == v,
{
    let ghost before = out@;
    out.push((v / 0x1000000) as u8);
    out.push(((v / 0x10000) % 0x100) as u8);
    out.push(((v / 0x100) % 0x100) as u8);
    out.push((v % 0x100) as u8);
    proof {
        assert(before.is_prefix_of(out@));
    }
}

/// Appends the four bytes of a tag.
fn push_tag(out: &mut Vec<u8>, tag: Tag)
    ensures
        final(out)@.len() == old(out)@.len() + 4,
        old(out)@.is_prefix_of(final(out)@),
        ({
            let at = old(out)@.len() as int;
            let b = final(out)@;
            Tag(pack_tag(b[at], b[at + 1], b[at + 2], b[at + 3])) == tag
        }),
{
    let ghost before = out@;
    let bytes = tag.to_bytes();
    out.push(bytes[0]);
    out.push(bytes[1]);
    out.push(bytes[2]);
    out.push(bytes[3]);
    proof {
        assert(before.is_prefix_of(out@));
        lemma_tag_round_trip(tag@, 0, 0, 0, 0);
    }
}

/// Appends the data, and then zeros until the length is a multiple of 4.
fn push_padded(out: &mut Vec<u8>, data: &Vec<u8>)
    requires
        old(out)@.len() % 4 == 0,
        old(out)@.len() + padded(data@.len() as int) <= u32::MAX,
    ensures
        final(out)@.len() == old(out)@.len() + padded(data@.len() as int),
        old(out)@.is_prefix_of(final(out)@),
        final(out)@.subrange(
            old(out)@.len() as int,
            (old(out)@.len() + data@.len()) as int,
        ) == data@,
{
    let ghost before = out@;
    let mut i: usize = 0;
    while i < data.len()
        invariant
            i <= data.len(),
            out@ == before + data@.take(i as int),
        decreases data.len() - i,
    {
        out.push(data[i]);
        i += 1;
        proof {
            assert(out@ =~= before + data@.take(i as int));
        }
    }
    proof {
        assert(data@.take(data.len() as int) =~= data@);
    }
    let ghost filled = out@;
    while out.len() % 4 != 0
        invariant
            filled == before + data@,
            before.len() % 4 == 0,
            filled.is_prefix_of(out@),
            filled.len() <= out@.len() <= before.len() + padded(data@.len() as int),
            before.len() + padded(data@.len() as int) <= u32::MAX,
        decreases before.len() + padded(data@.len() as int) - out@.len(),
    {
        let ghost prev = out@;
        out.push(0);
        proof {
            assert(filled.is_prefix_of(out@)) by {
                assert(prev.is_prefix_of(out@));
            }
        }
    }
    proof {
        assert(before.is_prefix_of(out@));
        assert(out@.subrange(before.len() as int, (before.len() + data@.len()) as int) =~= data@) by {
            assert forall|k: int| 0 <= k < data@.len() implies out@[before.len() + k]
                == data@[k] by {
                assert(filled[before.len() + k] == data@[k]);
            }
        }
    }
}

/// Bytes that were written stay as they are when more bytes follow: the header reads the
/// same.
pub proof fn lemma_prefix_header(s: Seq<u8>, t: Seq<u8>)
    requires
        s.is_prefix_of(t),
        s.len() >= 12,
    ensures
        be32(t, 0) == be32(s, 0),
        be16(t, 4) == be16(s, 4),
        be16(t, 6) == be16(s, 6),
        be16(t, 8) == be16(s, 8),
        be16(t, 10) == be16(s, 10),
        is_collection(t) == is_collection(s),
{
}

/// Bytes that were written stay as they are when more bytes follow: a record reads the same.
pub proof fn lemma_prefix_record(s: Seq<u8>, t: Seq<u8>, i: int)
    requires
        s.is_prefix_of(t),
        0 <= i,
        record_at(0, i) + 16 <= s.len(),
    ensures
        record_of(t, 0, i) == record_of(s, 0, i),
{
    let r = record_at(0, i);
    assert(t[r] == s[r] && t[r + 1] == s[r + 1] && t[r + 2] == s[r + 2] && t[r + 3] == s[r + 3]);
    assert(be32(t, r + 4) == be32(s, r + 4));
    assert(be32(t, r + 8) == be32(s, r + 8));
    assert(be32(t, r + 12) == be32(s, r + 12));
}

/// Bytes that were written stay as they are when more bytes follow: a range of them reads
/// the same.
pub proof fn lemma_prefix_subrange(s: Seq<u8>, t: Seq<u8>, a: int, b: int)
    requires
        s.is_prefix_of(t),
        0 <= a <= b <= s.len(),
    ensures
        t.subrange(a, b) == s.subrange(a, b),
{
    assert(t.subrange(a, b) =~= s.subrange(a, b));
}

/// The record that table `i` gets in the file that is written for `tables`.
pub open spec fn written_record(tables: Seq<(Tag, Seq<u8>)>, i: int) -> TableRecord {
    TableRecord {
        tag: tables[i].0,
        checksum: checksum_of(tables[i].1) as u32,
        offset: offset_of(tables, i) as u32,
        length: tables[i].1.len() as u32,
    }
}

/// Whether the bytes at `from` hold the data of table `i`.
pub open spec fn holds_table(bytes: Seq<u8>, tables: Seq<(Tag, Seq<u8>)>, i: int) -> bool {
    bytes.subrange(offset_of(tables, i), offset_of(tables, i) + tables[i].1.len()) == tables[i].1
}

/// Whether `bytes` is the font file of `tables`: a header with the version, the number of
/// tables and the search fields; one record for each table, in order, with its tag, its
/// checksum, its offset and its length; and the data of each table where its record says,
/// each table starting at a multiple of 4.
pub open spec fn is_font_of(bytes: Seq<u8>, version: u32, tables: Seq<(Tag, Seq<u8>)>) -> bool {
    &&& bytes.len() == offset_of(tables, tables.len() as int)
    &&& bytes.len() <= u32::MAX
    &&& be32(bytes, 0) == version
    &&& table_count(bytes, 0) == tables.len()
    &&& exists|selector: int|
        is_entry_selector(tables.len() as int, selector) && (
            be16(bytes, 6),
            be16(bytes, 8),
            be16(bytes, 10),
        ) == #[trigger] search_fields(tables.len() as int, selector)
    &&& directory_ok(bytes, 0)
    &&& directory_records(bytes, 0) == Seq::new(
        tables.len(),
        |i: int| written_record(tables, i),
    )
    &&& forall|i: int| 0 <= i < tables.len() ==> #[trigger] holds_table(bytes, tables, i)
}

/// Whether a font file can hold the tables: they are 4095 at most, and the file is no longer
/// than an offset can say.
pub open spec fn fits_in_font(tables: Seq<(Tag, Seq<u8>)>) -> bool {
    tables.len() <= 0xfff && offset_of(tables, tables.len() as int) <= u32::MAX
}

/// Assembles a font file from tables.
///
/// The tables come in the order given, each at the next multiple of 4, behind a directory
/// with fresh offsets, lengths and checksums. Gives nothing when there are more than 4095
/// tables, and when the file would be longer than an offset can say.
pub fn write_font(version: u32, tables: &Vec<(Tag, Vec<u8>)>) -> (r: Option<Vec<u8>>)
    ensures
        r is Some <==> fits_in_font(table_views(tables@)),
        r matches Some(bytes) ==> is_font_of(bytes@, version, table_views(tables@)),
{
    let count = tables.len();
    let ghost views = table_views(tables@);
    if count > 0xfff {
        return None;
    }
    let mut offsets: Vec<u64> = Vec::new();
    let mut cur: u64 = 12 + 16 * (count as u64);
    let mut i: usize = 0;
    while i < count
        invariant
            i <= count,
            count == tables.len(),
            views == table_views(tables@),
            count <= 0xfff,
            offsets.len() == i,
            forall|a: int| 0 <= a < i ==> #[trigger] offsets@[a] == offset_of(views, a),
            cur == offset_of(views, i as int),
            cur <= u32::MAX,
        decreases count - i,
    {
        let len = tables[i].1.len();
        proof {
            lemma_offsets_ascend(views, i + 1, count as int);
        }
        if len > u32::MAX as usize {
            return None;
        }
        let next: u64 = cur + len as u64 + ((4 - (len as u64) % 4) % 4);
        assert(next == offset_of(views, i + 1));
        if next > u32::MAX as u64 {
            return None;
        }
        offsets.push(cur);
        cur = next;
        i += 1;
    }
    let (selector, power) = entry_selector(count as u64);
    let mut out: Vec<u8> = Vec::new();
    push_u32(&mut out, version as u64);
    let ghost h1 = out@;
    push_u16(&mut out, count as u64);
    let ghost h2 = out@;
    if count == 0 {
        push_u16(&mut out, 0);
    } else {
        push_u16(&mut out, 16 * power);
    }
    let ghost h3 = out@;
    push_u16(&mut out, if count == 0 {
        0
    } else {
        selector
    });
    let ghost h4 = out@;
    push_u16(&mut out, if count == 0 {
        0
    } else {
        16 * (count as u64) - 16 * power
    });
    let ghost fields = search_fields(count as int, selector as int);
    proof {
        lemma_prefix_be(h1, out@, 0);
        assert(be16(out@, 4) == count) by {
            assert(h2.is_prefix_of(out@));
            assert(out@[4] == h2[4] && out@[5] == h2[5]);
        }
        assert(be16(out@, 6) == fields.0) by {
            assert(h3.is_prefix_of(out@));
            assert(out@[6] == h3[6] && out@[7] == h3[7]);
        }
        assert(be16(out@, 8) == fields.1) by {
            assert(h4.is_prefix_of(out@));
            assert(out@[8] == h4[8] && out@[9] == h4[9]);
        }
    }
    let mut i: usize = 0;
    while i < count
        invariant
            i <= count,
            count == tables.len(),
            views == table_views(tables@),
            count <= 0xfff,
            offsets.len() == count,
            forall|a: int| 0 <= a < count ==> #[trigger] offsets@[a] == offset_of(views, a),
            offset_of(views, count as int) <= u32::MAX,
            out@.len() == 12 + 16 * i,
            be32(out@, 0) == version,
            be16(out@, 4) == count,
            be16(out@, 6) == fields.0,
            be16(out@, 8) == fields.1,
            be16(out@, 10) == fields.2,
            forall|a: int|
                0 <= a < i ==> #[trigger] record_of(out@, 0, a) == written_record(views, a),
        decreases count - i,
    {
        let ghost s0 = out@;
        push_tag(&mut out, tables[i].0);
        let ghost s1 = out@;
        push_u32(&mut out, table_checksum(&tables[i].1) as u64);
        let ghost s2 = out@;
        proof {
            lemma_offsets_ascend(views, i as int, count as int);
            lemma_offsets_ascend(views, i + 1, count as int);
        }
        push_u32(&mut out, offsets[i]);
        let ghost s3 = out@;
        push_u32(&mut out, tables[i].1.len() as u64);
        proof {
            let r = record_at(0, i as int);
            assert(s0.is_prefix_of(out@) && s1.is_prefix_of(out@) && s2.is_prefix_of(out@)
                && s3.is_prefix_of(out@));
            lemma_prefix_header(s0, out@);
            assert(out@[r] == s1[r] && out@[r + 1] == s1[r + 1] && out@[r + 2] == s1[r + 2]
                && out@[r + 3] == s1[r + 3]);
            lemma_prefix_be(s2, out@, r + 4);
            lemma_prefix_be(s3, out@, r + 8);
            assert forall|a: int| 0 <= a < i + 1 implies #[trigger] record_of(out@, 0, a)
                == written_record(views, a) by {
                if a < i {
                    lemma_prefix_record(s0, out@, a);
                }
            }
        }
        i += 1;
    }
    let ghost directory = out@;
    let mut i: usize = 0;
    while i < count
        invariant
            i <= count,
            count == tables.len(),
            views == table_views(tables@),
            offset_of(views, count as int) <= u32::MAX,
            directory.len() == 12 + 16 * count,
            directory.is_prefix_of(out@),
            out@.len() == offset_of(views, i as int),
            forall|a: int| 0 <= a < i ==> #[trigger] holds_table(out@, views, a),
        decreases count - i,
    {
        let ghost prev = out@;
        proof {
            lemma_offsets_ascend(views, i as int, i as int);
            lemma_offsets_ascend(views, i + 1, count as int);
        }
        push_padded(&mut out, &tables[i].1);
        proof {
            assert forall|a: int| 0 <= a < i + 1 implies #[trigger] holds_table(
                out@,
                views,
                a,
            ) by {
                if a < i {
                    assert(holds_table(prev, views, a));
                    lemma_offsets_ascend(views, a + 1, i as int);
                    lemma_offsets_ascend(views, a, a);
                    lemma_prefix_subrange(
                        prev,
                        out@,
                        offset_of(views, a),
                        offset_of(views, a) + views[a].1.len(),
                    );
                }
            }
        }
        i += 1;
    }
    proof {
        lemma_prefix_header(directory, out@);
        assert(search_fields(count as int, selector as int) == fields);
        assert(directory_records(out@, 0) =~= Seq::new(
            views.len(),
            |i: int| written_record(views, i),
        )) by {
            assert forall|a: int| 0 <= a < count implies record_of(out@, 0, a) == written_record(
                views,
                a,
            ) by {
                lemma_prefix_record(directory, out@, a);
            }
        }
        assert(directory_ok(out@, 0)) by {
            lemma_offsets_ascend(views, 0, count as int);
            assert forall|a: int| 0 <= a < table_count(out@, 0) implies #[trigger] table_in_file(
                out@,
                0,
                a,
            ) by {
                lemma_prefix_record(directory, out@, a);
                assert(record_of(out@, 0, a) == written_record(views, a));
                lemma_offsets_ascend(views, a + 1, count as int);
                lemma_offsets_ascend(views, a, a);
            }
        }
    }
    Some(out)
}

/// The tag `ttcf`, with which a collection of fonts starts, as a number.
pub const COLLECTION_TAG: u32 = 0x74746366;

/// A font file that was written reads back: unless its version is the tag of a collection,
/// its face 0 has a sound directory with one record for each table that was written, in
/// order, and every table lies where its record says.
pub proof fn lemma_written_font_reads_back(
    bytes: Seq<u8>,
    version: u32,
    tables: Seq<(Tag, Seq<u8>)>,
)
    requires
        is_font_of(bytes, version, tables),
        version != COLLECTION_TAG,
    ensures
        directory_start(bytes, 0) == Some(0int),
        directory_ok(bytes, 0),
        directory_records(bytes, 0).len() == tables.len(),
        forall|i: int|
            0 <= i < tables.len() ==> #[trigger] directory_records(bytes, 0)[i] == written_record(
                tables,
                i,
            ),
        forall|i: int| 0 <= i < tables.len() ==> #[trigger] lies_as_recorded(bytes, tables, i),
{
    if is_collection(bytes) {
        assert(be32(bytes, 0) == 0x74 * 0x1000000 + 0x74 * 0x10000 + 0x63 * 0x100 + 0x66);
    }
    assert forall|i: int| 0 <= i < tables.len() implies #[trigger] lies_as_recorded(
        bytes,
        tables,
        i,
    ) by {
        lemma_record_fits(bytes, version, tables, i);
    }
}

/// Whether the data of table `i` lies in `bytes` where the record written for it says.
pub open spec fn lies_as_recorded(bytes: Seq<u8>, tables: Seq<(Tag, Seq<u8>)>, i: int) -> bool {
    let record = written_record(tables, i);
    &&& record.tag == tables[i].0
    &&& record.length == tables[i].1.len()
    &&& record.offset + record.length <= bytes.len()
    &&& bytes.subrange(record.offset as int, record.offset + record.length) == tables[i].1
}

/// In a font file that was written, the offset and the length of every record are those of
/// its table, unshortened.
proof fn lemma_record_fits(bytes: Seq<u8>, version: u32, tables: Seq<(Tag, Seq<u8>)>, i: int)
    requires
        is_font_of(bytes, version, tables),
        0 <= i < tables.len(),
    ensures
        lies_as_recorded(bytes, tables, i),
{
    lemma_offsets_ascend(tables, i, i);
    lemma_offsets_ascend(tables, i + 1, tables.len() as int);
    let offset = offset_of(tables, i);
    let length = tables[i].1.len() as int;
    assert(offset + length <= offset_of(tables, i + 1));
    assert(holds_table(bytes, tables, i));
}

/// Bytes that were written stay as they are when more bytes follow: four of them read the
/// same number.
proof fn lemma_prefix_be(s: Seq<u8>, t: Seq<u8>, at: int)
    requires
        s.is_prefix_of(t),
        0 <= at,
        at + 4 <= s.len(),
    ensures
        be32(t, at) == be32(s, at),
{
}

} // verus!
