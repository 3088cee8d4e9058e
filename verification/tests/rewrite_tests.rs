use hb_subset::rewrite::assemble;
use hb_subset::sfnt::{read_records, read_tables, write_font};
use hb_subset::{SubsettingError, TableAction, Tag};

fn tag(name: &[u8; 4]) -> Tag {
    Tag::new(*name)
}

#[test]
fn assembled_font_holds_what_the_plan_says() {
    let actions = vec![
        (tag(b"cmap"), TableAction::Subset),
        (tag(b"DSIG"), TableAction::Drop),
        (tag(b"OS/2"), TableAction::Passthrough),
        (tag(b"glyf"), TableAction::Subset),
    ];
    let originals = vec![vec![1; 10], vec![2; 20], vec![3, 3, 3], vec![4; 40]];
    let rewritten = vec![
        (tag(b"glyf"), vec![40, 41]),
        (tag(b"cmap"), vec![10]),
        (tag(b"cmap"), vec![99, 99]),
        (tag(b"DSIG"), vec![7]),
    ];
    let bytes = assemble(0x00010000, &actions, &originals, &rewritten).unwrap();
    assert_eq!(
        bytes,
        write_font(
            0x00010000,
            &vec![
                (tag(b"cmap"), vec![10]),
                (tag(b"OS/2"), vec![3, 3, 3]),
                (tag(b"glyf"), vec![40, 41]),
            ]
        )
        .unwrap()
    );
    assert_eq!(read_tables(&bytes, 0), Some(vec![vec![10], vec![3, 3, 3], vec![40, 41]]));
    let records = read_records(&bytes, 0).unwrap();
    assert_eq!(records.len(), 3);
    assert_eq!(records[0].offset, 60);
    assert_eq!(records[1].offset, 64);
    assert_eq!(records[2].offset, 68);
    assert_eq!(bytes.len(), 72);
}

#[test]
fn assembly_is_all_or_nothing() {
    let actions = vec![(tag(b"cmap"), TableAction::Subset), (tag(b"glyf"), TableAction::Subset)];
    let originals = vec![vec![1], vec![2]];
    let only_cmap = vec![(tag(b"cmap"), vec![10])];
    assert_eq!(assemble(1, &actions, &originals, &only_cmap), Err(SubsettingError));
    assert_eq!(assemble(1, &actions, &originals, &vec![]), Err(SubsettingError));
    assert_eq!(assemble(1, &actions, &vec![vec![1]], &only_cmap), Err(SubsettingError));
    let both = vec![(tag(b"cmap"), vec![10]), (tag(b"glyf"), vec![])];
    assert!(assemble(1, &actions, &originals, &both).is_ok());
    // Nothing is needed for tables that are dropped or passed through.
    let quiet = vec![(tag(b"cmap"), TableAction::Drop), (tag(b"glyf"), TableAction::Passthrough)];
    assert_eq!(
        assemble(1, &quiet, &originals, &vec![]),
        Ok(write_font(1, &vec![(tag(b"glyf"), vec![2])]).unwrap())
    );
    assert_eq!(assemble(1, &vec![], &vec![], &both), Ok(write_font(1, &vec![]).unwrap()));
}
