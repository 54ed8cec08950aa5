use diffcore::align::to_side_by_side;
use diffcore::diff::ChangeKind;
use diffcore::diff::DiffLine;
use diffcore::diff::FileDiff;
use diffcore::split_lines;
use diffcore::viewer::count_lines_of_kind;
use diffcore::viewer::file_display_name;

fn same_line(a: &DiffLine, b: &DiffLine) -> bool {
    a.kind == b.kind && a.old_lineno == b.old_lineno && a.new_lineno == b.new_lineno
        && a.content == b.content
}

#[test]
fn test_split_lines_cases() {
    assert_eq!(split_lines(""), Vec::<String>::new());
    assert_eq!(split_lines("a\nb\nc\n"), vec!["a", "b", "c"]);
    assert_eq!(split_lines("a\nb"), vec!["a", "b"]);
    assert_eq!(split_lines("a\n\n"), vec!["a", ""]);
    assert_eq!(split_lines("\n"), vec![""]);
}

#[test]
fn test_alignment_example() {
    let diff = FileDiff::from_contents("f", "f", "a\nb\nc\n", "a\nx\nc\n");
    assert_eq!(diff.lines.len(), 4);
    assert_eq!(diff.lines[0].kind, ChangeKind::Unchanged);
    assert_eq!(diff.lines[0].old_lineno, Some(1));
    assert_eq!(diff.lines[0].new_lineno, Some(1));
    assert_eq!(diff.lines[0].content, "a");
    assert_eq!(diff.lines[1].kind, ChangeKind::Removed);
    assert_eq!(diff.lines[1].old_lineno, Some(2));
    assert_eq!(diff.lines[1].new_lineno, None);
    assert_eq!(diff.lines[1].content, "b");
    assert_eq!(diff.lines[2].kind, ChangeKind::Added);
    assert_eq!(diff.lines[2].old_lineno, None);
    assert_eq!(diff.lines[2].new_lineno, Some(2));
    assert_eq!(diff.lines[2].content, "x");
    assert_eq!(diff.lines[3].kind, ChangeKind::Unchanged);
    assert_eq!(diff.lines[3].old_lineno, Some(3));
    assert_eq!(diff.lines[3].new_lineno, Some(3));
    assert_eq!(diff.lines[3].content, "c");

    let rows = to_side_by_side(&diff.lines);
    assert_eq!(rows.len(), 3);
    for row in &rows {
        assert!(row.left.is_some() && row.right.is_some());
    }
    assert_eq!(rows[0].left.as_ref().unwrap().content, "a");
    assert_eq!(rows[0].right.as_ref().unwrap().content, "a");
    assert_eq!(rows[1].left.as_ref().unwrap().content, "b");
    assert_eq!(rows[1].right.as_ref().unwrap().content, "x");
    assert_eq!(rows[2].left.as_ref().unwrap().content, "c");
    assert_eq!(rows[2].right.as_ref().unwrap().content, "c");
}

#[test]
fn test_unequal_replace_example() {
    let diff = FileDiff::from_contents("f", "f", "p\nq\n", "x\n");
    assert_eq!(diff.lines.len(), 3);
    assert_eq!(diff.lines[0].kind, ChangeKind::Removed);
    assert_eq!(diff.lines[0].old_lineno, Some(1));
    assert_eq!(diff.lines[0].content, "p");
    assert_eq!(diff.lines[1].kind, ChangeKind::Removed);
    assert_eq!(diff.lines[1].old_lineno, Some(2));
    assert_eq!(diff.lines[1].content, "q");
    assert_eq!(diff.lines[2].kind, ChangeKind::Added);
    assert_eq!(diff.lines[2].new_lineno, Some(1));
    assert_eq!(diff.lines[2].content, "x");

    let rows = to_side_by_side(&diff.lines);
    assert_eq!(rows.len(), 2);
    assert_eq!(rows[0].left.as_ref().unwrap().content, "p");
    assert_eq!(rows[0].right.as_ref().unwrap().content, "x");
    assert_eq!(rows[1].left.as_ref().unwrap().content, "q");
    assert!(rows[1].right.is_none());
}

#[test]
fn test_identical_texts_only_unchanged() {
    let text = "alpha\nbeta\ngamma\n";
    let diff = FileDiff::from_contents("f", "f", text, text);
    assert_eq!(diff.lines.len(), 3);
    for line in &diff.lines {
        assert_eq!(line.kind, ChangeKind::Unchanged);
        assert!(line.old_lineno.is_some());
        assert_eq!(line.old_lineno, line.new_lineno);
    }
}

#[test]
fn test_rerun_yields_identical_diff() {
    let d1 = FileDiff::from_contents("old.txt", "new.txt", "a\nb\n", "a\nc\nd\n");
    let d2 = FileDiff::from_contents("old.txt", "new.txt", "a\nb\n", "a\nc\nd\n");
    assert_eq!(d1.old_path, d2.old_path);
    assert_eq!(d1.new_path, d2.new_path);
    assert_eq!(d1.lines.len(), d2.lines.len());
    for (a, b) in d1.lines.iter().zip(d2.lines.iter()) {
        assert!(same_line(a, b));
    }
}

#[test]
fn test_numbering_counts_each_side() {
    let diff = FileDiff::from_contents("f", "f", "", "x\ny\n");
    assert_eq!(diff.lines.len(), 2);
    assert_eq!(diff.lines[0].kind, ChangeKind::Added);
    assert_eq!(diff.lines[0].old_lineno, None);
    assert_eq!(diff.lines[0].new_lineno, Some(1));
    assert_eq!(diff.lines[1].new_lineno, Some(2));
}

#[test]
fn test_empty_texts_empty_diff() {
    let diff = FileDiff::from_contents("f", "g", "", "");
    assert_eq!(diff.old_path, "f");
    assert_eq!(diff.new_path, "g");
    assert_eq!(diff.lines.len(), 0);
}

#[test]
fn test_display_name_and_counts() {
    let diff = FileDiff::from_contents("same.txt", "same.txt", "a\nb\nc\n", "a\nx\nc\n");
    assert_eq!(file_display_name(&diff), "same.txt");
    assert_eq!(count_lines_of_kind(&diff, ChangeKind::Unchanged), 2);
    assert_eq!(count_lines_of_kind(&diff, ChangeKind::Removed), 1);
    assert_eq!(count_lines_of_kind(&diff, ChangeKind::Added), 1);

    let renamed = FileDiff::from_contents("a.txt", "b.txt", "", "");
    assert_eq!(file_display_name(&renamed), "a.txt → b.txt");
}
