use diffcore::discovery::assemble_staged;
use diffcore::discovery::assemble_unstaged;
use diffcore::discovery::diff_changeset;
use diffcore::discovery::discover_explicit;
use diffcore::discovery::parse_file_list;
use diffcore::discovery::parse_toplevel;
use diffcore::discovery::read_outcome_text;
use diffcore::discovery::DiscoveryError;
use diffcore::discovery::DiscoveryMode;

#[test]
fn test_read_outcome_placeholder() {
    assert_eq!(read_outcome_text(Ok("content".to_string())), "content");
    assert_eq!(
        read_outcome_text(Err("No such file or directory (os error 2)".to_string())),
        "Error reading file: No such file or directory (os error 2)"
    );
}

#[test]
fn test_explicit_read_failure_isolation() {
    let pairs = vec![
        (
            "good_old".to_string(),
            "good_new".to_string(),
            Ok("a\n".to_string()),
            Ok("b\n".to_string()),
        ),
        (
            "bad_old".to_string(),
            "bad_new".to_string(),
            Err("denied".to_string()),
            Ok("b\n".to_string()),
        ),
    ];
    let cs = discover_explicit(pairs).unwrap();
    assert_eq!(cs.entries.len(), 2);
    assert_eq!(cs.entries[0].old_text, "a\n");
    assert_eq!(cs.entries[1].old_path, "bad_old");
    assert_eq!(cs.entries[1].old_text, "Error reading file: denied");
    assert_eq!(cs.entries[1].new_text, "b\n");

    let diffs = diff_changeset(&cs);
    assert_eq!(diffs.len(), 2);
    assert_eq!(diffs[1].old_path, "bad_old");
    assert_eq!(diffs[1].lines[0].content, "Error reading file: denied");
}

#[test]
fn test_explicit_empty_is_no_changes() {
    let r = discover_explicit(vec![]);
    assert!(matches!(
        r,
        Err(DiscoveryError::NoChanges { mode: DiscoveryMode::ExplicitPairs })
    ));
}

#[test]
fn test_unstaged_empty_is_no_changes() {
    let r = assemble_unstaged(vec![], vec![]);
    assert!(matches!(
        r,
        Err(DiscoveryError::NoChanges { mode: DiscoveryMode::WorkingTreeUnstaged })
    ));
}

#[test]
fn test_unstaged_ordering_and_texts() {
    let changed = vec![
        ("m.txt".to_string(), Some("old m\n".to_string()), "new m\n".to_string()),
        ("n.txt".to_string(), None, "new n\n".to_string()),
    ];
    let untracked = vec![("u.txt".to_string(), "brand new\n".to_string())];
    let cs = assemble_unstaged(changed, untracked).unwrap();
    assert_eq!(cs.entries.len(), 3);
    assert_eq!(cs.entries[0].old_path, "m.txt");
    assert_eq!(cs.entries[0].old_text, "old m\n");
    assert_eq!(cs.entries[0].new_text, "new m\n");
    assert_eq!(cs.entries[1].old_text, "");
    assert_eq!(cs.entries[2].old_path, "u.txt");
    assert_eq!(cs.entries[2].old_text, "");
    assert_eq!(cs.entries[2].new_text, "brand new\n");
}

#[test]
fn test_staged_texts_and_no_changes() {
    let files = vec![
        ("s.txt".to_string(), Some("committed\n".to_string()), "staged\n".to_string()),
        ("t.txt".to_string(), None, "added\n".to_string()),
    ];
    let cs = assemble_staged(files).unwrap();
    assert_eq!(cs.entries.len(), 2);
    assert_eq!(cs.entries[0].old_text, "committed\n");
    assert_eq!(cs.entries[0].new_text, "staged\n");
    assert_eq!(cs.entries[1].old_text, "");

    let r = assemble_staged(vec![]);
    assert!(matches!(
        r,
        Err(DiscoveryError::NoChanges { mode: DiscoveryMode::WorkingTreeStaged })
    ));
}

#[test]
fn test_parse_toplevel() {
    let ok = parse_toplevel(true, "/home/user/repo\n");
    assert_eq!(ok.unwrap(), "/home/user/repo");
    let err = parse_toplevel(false, "");
    assert!(matches!(err, Err(DiscoveryError::NotARepository)));
}

#[test]
fn test_parse_file_list() {
    let files = parse_file_list(true, "a.txt\nsub/b.txt\n\n", "").unwrap();
    assert_eq!(files, vec!["a.txt", "sub/b.txt"]);

    let crlf = parse_file_list(true, "a.txt\r\nb.txt\r\n", "").unwrap();
    assert_eq!(crlf, vec!["a.txt", "b.txt"]);

    let err = parse_file_list(false, "", "fatal: bad revision");
    match err {
        Err(DiscoveryError::VcsCommandFailed { detail }) => {
            assert_eq!(detail, "fatal: bad revision");
        },
        _ => panic!("expected VcsCommandFailed"),
    }
}
