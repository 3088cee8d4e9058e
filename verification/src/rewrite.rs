//! Putting the tables of a subset together into a font file.
//!
//! The plan says for each table of the face whether it is dropped, passed through or
//! subset. A dropped table is left out, a table that is passed through goes in with the bytes
//! it had, and a table that is subset goes in with the bytes that its rewrite gave. When the
//! rewrite of one table is missing, nothing is put together at all.

use crate::common::Tag;
use crate::error::SubsettingError;
use crate::plan::TableAction;
use crate::sfnt::{byte_views, fits_in_font, is_font_of, table_views, write_font};
use vstd::prelude::*;

verus! {

/// The bytes that the rewrite gave for the table `tag`: those of the first entry from index
/// `from` on that has this tag, if there is one.
pub open spec fn rewritten_for(rewritten: Seq<(Tag, Seq<u8>)>, tag: Tag, from: int) -> Option<
    Seq<u8>,
>
    decreases rewritten.len() - from,
{
    if from < 0 || from >= rewritten.len() {
        None
    } else if rewritten[from].0 == tag {
        Some(rewritten[from].1)
    } else {
        rewritten_for(rewritten, tag, from + 1)
    }
}

/// Whether a table that is to be subset has no rewrite.
pub open spec fn lacks_rewrite(
    actions: Seq<(Tag, TableAction)>,
    rewritten: Seq<(Tag, Seq<u8>)>,
) -> bool {
    exists|i: int|
        0 <= i < actions.len() && (#[trigger] actions[i]).1 == TableAction::Subset
            && rewritten_for(rewritten, actions[i].0, 0) is None
}

/// The tables of the subset with their bytes, in the order of the plan.
pub open spec fn chosen(
    actions: Seq<(Tag, TableAction)>,
    originals: Seq<Seq<u8>>,
    rewritten: Seq<(Tag, Seq<u8>)>,
) -> Seq<(Tag, Seq<u8>)>
    decreases actions.len(),
{
    if actions.len() == 0 {
        Seq::empty()
    } else {
        let rest = chosen(actions.drop_last(), originals, rewritten);
        let tag = actions.last().0;
        match actions.last().1 {
            TableAction::Drop => rest,
            TableAction::Passthrough => rest.push((tag, originals[actions.len() - 1])),
            TableAction::Subset => match rewritten_for(rewritten, tag, 0) {
                Some(data) => rest.push((tag, data)),
                None => rest,
            },
        }
    }
}

/// Finds the rewrite of the table `tag`.
fn find_rewritten(rewritten: &Vec<(Tag, Vec<u8>)>, tag: Tag) -> (r: Option<usize>)
    ensures
        match r {
            Some(i) => i < rewritten.len() && rewritten_for(table_views(rewritten@), tag, 0)
                == Some(rewritten@[i as int].1@),
            None => rewritten_for(table_views(rewritten@), tag, 0) is None,
        },
{
    let mut i: usize = 0;
    while i < rewritten.len()
        invariant
            i <= rewritten.len(),
            rewritten_for(table_views(rewritten@), tag, 0) == rewritten_for(
                table_views(rewritten@),
                tag,
                i as int,
            ),
        decreases rewritten.len() - i,
    {
        if rewritten[i].0 == tag {
            return Some(i);
        }
        i += 1;
    }
    None
}

/// A copy of the bytes.
fn copy_bytes(data: &Vec<u8>) -> (out: Vec<u8>)
    ensures
        out@ == data@,
{
    let mut out: Vec<u8> = Vec::new();
    let mut i: usize = 0;
    while i < data.len()
        invariant
            i <= data.len(),
            out@ == data@.take(i as int),
        decreases data.len() - i,
    {
        out.push(data[i]);
        i += 1;
        proof {
            assert(out@ =~= data@.take(i as int));
        }
    }
    proof {
        assert(data@.take(data.len() as int) =~= data@);
    }
    out
}

/// Puts the font file of a subset together.
///
/// `actions` says what becomes of each table, `originals` holds the bytes that each of these
/// tables had, in the same order, and `rewritten` holds the bytes that the rewrite gave for
/// the tables that are subset. Fails, with no bytes at all, when `originals` and `actions`
/// differ in length, when a table that is to be subset has no rewrite, and when the tables
/// do not fit in a font file.
pub fn assemble(
    version: u32,
    actions: &Vec<(Tag, TableAction)>,
    originals: &Vec<Vec<u8>>,
    rewritten: &Vec<(Tag, Vec<u8>)>,
) -> (r: Result<Vec<u8>, SubsettingError>)
    ensures
        r is Ok <==> (originals@.len() == actions@.len() && !lacks_rewrite(
            actions@,
            table_views(rewritten@),
        ) && fits_in_font(chosen(actions@, byte_views(originals@), table_views(rewritten@)))),
        r matches Ok(bytes) ==> is_font_of(
            bytes@,
            version,
            chosen(actions@, byte_views(originals@), table_views(rewritten@)),
        ),
{
    if originals.len() != actions.len() {
        return Err(SubsettingError);
    }
    let ghost given = byte_views(originals@);
    let ghost made = table_views(rewritten@);
    let mut tables: Vec<(Tag, Vec<u8>)> = Vec::new();
    let mut i: usize = 0;
    proof {
        assert(table_views(tables@) =~= chosen(actions@.take(0), given, made));
    }
    while i < actions.len()
        invariant
            i <= actions.len(),
            originals.len() == actions.len(),
            given == byte_views(originals@),
            made == table_views(rewritten@),
            table_views(tables@) == chosen(actions@.take(i as int), given, made),
            forall|a: int|
                0 <= a < i && (#[trigger] actions@[a]).1 == TableAction::Subset ==> rewritten_for(
                    made,
                    actions@[a].0,
                    0,
                ) is Some,
        decreases actions.len() - i,
    {
        let entry = actions[i];
        let ghost before = tables@;
        proof {
            assert(actions@.take(i + 1).drop_last() =~= actions@.take(i as int));
            assert(actions@.take(i + 1).last() == actions@[i as int]);
        }
        match entry.1 {
            TableAction::Drop => {},
            TableAction::Passthrough => {
                tables.push((entry.0, copy_bytes(&originals[i])));
                proof {
                    assert(table_views(tables@) =~= table_views(before).push(
                        (entry.0, given[i as int]),
                    ));
                }
            },
            TableAction::Subset => {
                match find_rewritten(rewritten, entry.0) {
                    Some(at) => {
                        tables.push((entry.0, copy_bytes(&rewritten[at].1)));
                        proof {
                            assert(table_views(tables@) =~= table_views(before).push(
                                (entry.0, rewritten@[at as int].1@),
                            ));
                        }
                    },
                    None => {
                        return Err(SubsettingError);
                    },
                }
            },
        }
        i += 1;
    }
    proof {
        assert(actions@.take(actions.len() as int) =~= actions@);
    }
    match write_font(version, &tables) {
        Some(bytes) => Ok(bytes),
        None => Err(SubsettingError),
    }
}

} // verus!
