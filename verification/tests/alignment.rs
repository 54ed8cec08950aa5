use diffcore::align::to_side_by_side;
use diffcore::diff::ChangeKind;
use diffcore::diff::DiffLine;

#[test]
fn test_side_by_side_equal_lines() {
    let lines = vec![
        DiffLine {
            kind: ChangeKind::Unchanged,
            old_lineno: Some(1),
            new_lineno: Some(1),
            content: "hello".into(),
        },
        DiffLine {
            kind: ChangeKind::Unchanged,
            old_lineno: Some(2),
            new_lineno: Some(2),
            content: "world".into(),
        },
    ];
    let sbs = to_side_by_side(&lines);
    assert_eq!(sbs.len(), 2);
    assert!(sbs[0].left.is_some() && sbs[0].right.is_some());
    assert!(sbs[1].left.is_some() && sbs[1].right.is_some());
}

#[test]
fn test_side_by_side_delete_insert_pairing() {
    let lines = vec![
        DiffLine {
            kind: ChangeKind::Removed,
            old_lineno: Some(1),
            new_lineno: None,
            content: "old".into(),
        },
        DiffLine {
            kind: ChangeKind::Added,
            old_lineno: None,
            new_lineno: Some(1),
            content: "new".into(),
        },
    ];
    let sbs = to_side_by_side(&lines);
    assert_eq!(sbs.len(), 1);
    assert_eq!(sbs[0].left.as_ref().unwrap().content, "old");
    assert_eq!(sbs[0].right.as_ref().unwrap().content, "new");
}

#[test]
fn test_side_by_side_more_deletes_than_inserts() {
    let lines = vec![
        DiffLine {
            kind: ChangeKind::Removed,
            old_lineno: Some(1),
            new_lineno: None,
            content: "del1".into(),
        },
        DiffLine {
            kind: ChangeKind::Removed,
            old_lineno: Some(2),
            new_lineno: None,
            content: "del2".into(),
        },
        DiffLine {
            kind: ChangeKind::Added,
            old_lineno: None,
            new_lineno: Some(1),
            content: "ins1".into(),
        },
    ];
    let sbs = to_side_by_side(&lines);
    assert_eq!(sbs.len(), 2);
    assert!(sbs[0].left.is_some() && sbs[0].right.is_some());
    assert!(sbs[1].left.is_some() && sbs[1].right.is_none());
}

#[test]
fn test_side_by_side_more_inserts_than_deletes() {
    let lines = vec![
        DiffLine {
            kind: ChangeKind::Removed,
            old_lineno: Some(1),
            new_lineno: None,
            content: "del1".into(),
        },
        DiffLine {
            kind: ChangeKind::Added,
            old_lineno: None,
            new_lineno: Some(1),
            content: "ins1".into(),
        },
        DiffLine {
            kind: ChangeKind::Added,
            old_lineno: None,
            new_lineno: Some(2),
            content: "ins2".into(),
        },
    ];
    let sbs = to_side_by_side(&lines);
    assert_eq!(sbs.len(), 2);
    assert!(sbs[0].left.is_some() && sbs[0].right.is_some());
    assert!(sbs[1].left.is_none() && sbs[1].right.is_some());
}

#[test]
fn test_side_by_side_trailing_deletes() {
    let lines = vec![
        DiffLine {
            kind: ChangeKind::Removed,
            old_lineno: Some(1),
            new_lineno: None,
            content: "del1".into(),
        },
        DiffLine {
            kind: ChangeKind::Removed,
            old_lineno: Some(2),
            new_lineno: None,
            content: "del2".into(),
        },
    ];
    let sbs = to_side_by_side(&lines);
    assert_eq!(sbs.len(), 2);
    assert!(sbs[0].left.is_some() && sbs[0].right.is_none());
    assert!(sbs[1].left.is_some() && sbs[1].right.is_none());
}

#[test]
fn test_fifo_pairing_keeps_original_order() {
    let lines = vec![
        DiffLine {
            kind: ChangeKind::Removed,
            old_lineno: Some(1),
            new_lineno: None,
            content: "first".into(),
        },
        DiffLine {
            kind: ChangeKind::Removed,
            old_lineno: Some(2),
            new_lineno: None,
            content: "second".into(),
        },
        DiffLine {
            kind: ChangeKind::Added,
            old_lineno: None,
            new_lineno: Some(1),
            content: "one".into(),
        },
        DiffLine {
            kind: ChangeKind::Added,
            old_lineno: None,
            new_lineno: Some(2),
            content: "two".into(),
        },
    ];
    let sbs = to_side_by_side(&lines);
    assert_eq!(sbs.len(), 2);
    assert_eq!(sbs[0].left.as_ref().unwrap().content, "first");
    assert_eq!(sbs[0].right.as_ref().unwrap().content, "one");
    assert_eq!(sbs[1].left.as_ref().unwrap().content, "second");
    assert_eq!(sbs[1].right.as_ref().unwrap().content, "two");
}

#[test]
fn test_unchanged_flushes_pending_removed_lines() {
    let lines = vec![
        DiffLine {
            kind: ChangeKind::Removed,
            old_lineno: Some(1),
            new_lineno: None,
            content: "gone".into(),
        },
        DiffLine {
            kind: ChangeKind::Unchanged,
            old_lineno: Some(2),
            new_lineno: Some(1),
            content: "kept".into(),
        },
    ];
    let sbs = to_side_by_side(&lines);
    assert_eq!(sbs.len(), 2);
    assert_eq!(sbs[0].left.as_ref().unwrap().content, "gone");
    assert!(sbs[0].right.is_none());
    assert_eq!(sbs[1].left.as_ref().unwrap().content, "kept");
    assert_eq!(sbs[1].right.as_ref().unwrap().content, "kept");
}

#[test]
fn test_empty_input_empty_alignment() {
    let lines: Vec<DiffLine> = vec![];
    let sbs = to_side_by_side(&lines);
    assert_eq!(sbs.len(), 0);
}
