use sandbox::diff_parser::{create_new_file_hunks, parse_file_to_hunks};
use sandbox::hunk::{ChangeEntry, EntryOperation, FileHunks, HunkSelection, SetType};
use sandbox::interactive::{
    apply_selected_hunks_for_accept, apply_selected_hunks_for_reject,
    apply_selected_hunks_to_new_file, calculate_remaining_for_upper, file_hunks_for_change,
    parse_command, plan_accept, plan_reject, ApplyError, FileAction, InteractiveCommand,
    Session, SessionNotice,
};

use HunkSelection::{Accept, Skip};

const ORIGINAL: &[u8] = b"1\n2\n3\n4\n5\n6\n7\n8\n9\n10\n11\n12\n13\n14\n15\n";
const MODIFIED: &[u8] = b"1\nTWO\n3\n4\n5\n6\n7\n8\n9\n10\n11\n12\n13\nFOURTEEN\n15\n";
const FIRST_ONLY: &[u8] = b"1\nTWO\n3\n4\n5\n6\n7\n8\n9\n10\n11\n12\n13\n14\n15\n";
const SECOND_ONLY: &[u8] = b"1\n2\n3\n4\n5\n6\n7\n8\n9\n10\n11\n12\n13\nFOURTEEN\n15\n";

fn two_hunk_file() -> FileHunks {
    let fh = parse_file_to_hunks(ORIGINAL, MODIFIED, "f", ChangeEntry::test_entry("f")).unwrap();
    assert_eq!(fh.hunks.len(), 2);
    fh
}

#[test]
fn commands_from_keys() {
    assert_eq!(InteractiveCommand::from_char('y'), Some(InteractiveCommand::Yes));
    assert_eq!(InteractiveCommand::from_char('N'), Some(InteractiveCommand::No));
    assert_eq!(InteractiveCommand::from_char('q'), Some(InteractiveCommand::Quit));
    assert_eq!(InteractiveCommand::from_char('A'), Some(InteractiveCommand::All));
    assert_eq!(InteractiveCommand::from_char('d'), Some(InteractiveCommand::Done));
    assert_eq!(InteractiveCommand::from_char('s'), Some(InteractiveCommand::Split));
    assert_eq!(InteractiveCommand::from_char('?'), Some(InteractiveCommand::Help));
    assert_eq!(InteractiveCommand::from_char('h'), Some(InteractiveCommand::Help));
    assert_eq!(InteractiveCommand::from_char('J'), Some(InteractiveCommand::NextFile));
    assert_eq!(InteractiveCommand::from_char('k'), Some(InteractiveCommand::PrevFile));
    assert_eq!(InteractiveCommand::from_char('x'), None);
}

#[test]
fn commands_ignore_case() {
    for c in 'a'..='z' {
        assert_eq!(
            InteractiveCommand::from_char(c),
            InteractiveCommand::from_char(c.to_ascii_uppercase())
        );
    }
}

#[test]
fn command_from_input_line() {
    assert_eq!(parse_command("  Y\n"), Some(InteractiveCommand::Yes));
    assert_eq!(parse_command("no way\n"), Some(InteractiveCommand::No));
    assert_eq!(parse_command("\n"), None);
    assert_eq!(parse_command(""), None);
    assert_eq!(parse_command("x\n"), None);
}

#[test]
fn accept_selected_hunks() {
    let fh = two_hunk_file();
    assert_eq!(apply_selected_hunks_for_accept(&fh, &[Accept, Skip]).unwrap(), FIRST_ONLY);
    assert_eq!(apply_selected_hunks_for_accept(&fh, &[Skip, Accept]).unwrap(), SECOND_ONLY);
    assert_eq!(apply_selected_hunks_for_accept(&fh, &[Accept, Accept]).unwrap(), MODIFIED);
}

#[test]
fn accept_nothing_keeps_original() {
    let fh = two_hunk_file();
    assert_eq!(apply_selected_hunks_for_accept(&fh, &[Skip, Skip]).unwrap(), ORIGINAL);
    assert_eq!(apply_selected_hunks_for_accept(&fh, &[]).unwrap(), ORIGINAL);
}

#[test]
fn reject_is_accept_of_the_other_hunks() {
    let fh = two_hunk_file();
    assert_eq!(apply_selected_hunks_for_reject(&fh, &[Accept, Skip]).unwrap(), SECOND_ONLY);
    assert_eq!(
        apply_selected_hunks_for_reject(&fh, &[Accept, Skip]).unwrap(),
        apply_selected_hunks_for_accept(&fh, &[Skip, Accept]).unwrap()
    );
    assert_eq!(apply_selected_hunks_for_reject(&fh, &[Accept, Accept]).unwrap(), ORIGINAL);
    assert_eq!(apply_selected_hunks_for_reject(&fh, &[]).unwrap(), MODIFIED);
}

#[test]
fn accept_without_original_fails() {
    let fh = create_new_file_hunks(b"a\n", "n", ChangeEntry::test_entry("n")).unwrap();
    assert_eq!(
        apply_selected_hunks_for_accept(&fh, &[Accept]).unwrap_err(),
        ApplyError::NoOriginalContent
    );
    assert_eq!(
        apply_selected_hunks_for_reject(&fh, &[Accept]).unwrap_err(),
        ApplyError::NoOriginalContent
    );
}

#[test]
fn accept_keeps_missing_final_newline() {
    let fh = parse_file_to_hunks(b"a\nb", b"a\nc", "f", ChangeEntry::test_entry("f")).unwrap();
    assert_eq!(apply_selected_hunks_for_accept(&fh, &[Accept]).unwrap(), b"a\nc");
    assert_eq!(apply_selected_hunks_for_accept(&fh, &[Skip]).unwrap(), b"a\nb");
}

#[test]
fn new_file_selection() {
    let fh = create_new_file_hunks(b"x\ny", "n", ChangeEntry::test_entry("n")).unwrap();
    assert_eq!(apply_selected_hunks_to_new_file(&fh, &[Accept]).unwrap(), b"x\ny\n");
    assert_eq!(apply_selected_hunks_to_new_file(&fh, &[Skip]).unwrap(), b"");
    assert_eq!(apply_selected_hunks_to_new_file(&fh, &[]).unwrap(), b"");
}

#[test]
fn remaining_after_accept() {
    let fh = two_hunk_file();
    assert_eq!(calculate_remaining_for_upper(&fh, &[Accept, Accept]).unwrap(), b"");
    assert_eq!(calculate_remaining_for_upper(&fh, &[]).unwrap(), b"");
    assert_eq!(calculate_remaining_for_upper(&fh, &[Skip, Skip]).unwrap(), MODIFIED);
    // a partial accept leaves every change in the staged copy
    assert_eq!(calculate_remaining_for_upper(&fh, &[Accept, Skip]).unwrap(), MODIFIED);
    assert_eq!(calculate_remaining_for_upper(&fh, &[Skip, Accept]).unwrap(), MODIFIED);
}

#[test]
fn remaining_errors() {
    let deleted =
        sandbox::diff_parser::create_deleted_file_hunks(b"a\n", "d", ChangeEntry::test_entry("d"))
            .unwrap();
    assert_eq!(
        calculate_remaining_for_upper(&deleted, &[Accept]).unwrap_err(),
        ApplyError::NoModifiedContent
    );
    let created = create_new_file_hunks(b"a\nb\n", "n", ChangeEntry::test_entry("n")).unwrap();
    assert_eq!(
        calculate_remaining_for_upper(&created, &[Accept, Skip]).unwrap_err(),
        ApplyError::NoOriginalContent
    );
}

#[test]
fn plan_accept_choices() {
    let fh = two_hunk_file();
    assert!(matches!(plan_accept(&fh, &[Skip, Skip]), Ok(FileAction::Leave)));
    assert!(matches!(plan_accept(&fh, &[Accept, Accept]), Ok(FileAction::AcceptWhole)));
    match plan_accept(&fh, &[Accept, Skip]) {
        Ok(FileAction::WritePartial { content, remaining }) => {
            assert_eq!(content, FIRST_ONLY);
            assert_eq!(remaining.unwrap(), MODIFIED);
        }
        _ => panic!("expected a partial write"),
    }

    let mut created = create_new_file_hunks(b"a\n", "n", ChangeEntry::test_entry("n")).unwrap();
    created.change_entry.operation = EntryOperation::Staged(SetType::Create);
    assert!(matches!(plan_accept(&created, &[Accept]), Ok(FileAction::AcceptWhole)));
    match plan_accept(&created, &[Accept, Skip]) {
        Ok(FileAction::WritePartial { content, remaining }) => {
            assert_eq!(content, b"a\n");
            assert_eq!(remaining.unwrap_err(), ApplyError::NoOriginalContent);
        }
        _ => panic!("expected a partial write"),
    }

    let mut deleted =
        sandbox::diff_parser::create_deleted_file_hunks(b"a\n", "d", ChangeEntry::test_entry("d"))
            .unwrap();
    deleted.change_entry.operation = EntryOperation::Remove;
    assert!(matches!(plan_accept(&deleted, &[Accept]), Ok(FileAction::DeleteSource)));
    assert!(matches!(plan_accept(&deleted, &[Accept, Skip]), Ok(FileAction::Leave)));

    let binary =
        parse_file_to_hunks(b"\x00", b"\x01\x00", "b", ChangeEntry::test_entry("b")).unwrap();
    assert!(matches!(plan_accept(&binary, &[Accept]), Ok(FileAction::AcceptWhole)));
    assert!(matches!(plan_accept(&binary, &[Skip, Accept]), Ok(FileAction::Leave)));
}

#[test]
fn plan_reject_choices() {
    let fh = two_hunk_file();
    assert!(matches!(plan_reject(&fh, &[Skip, Skip]), Ok(FileAction::Leave)));
    assert!(matches!(plan_reject(&fh, &[Accept, Accept]), Ok(FileAction::RejectWhole)));
    match plan_reject(&fh, &[Skip, Accept]) {
        Ok(FileAction::KeepRemaining { remaining }) => assert_eq!(remaining, FIRST_ONLY),
        _ => panic!("expected the remaining content"),
    }
    let created = create_new_file_hunks(b"a\nb\n", "n", ChangeEntry::test_entry("n")).unwrap();
    assert!(matches!(
        plan_reject(&created, &[Accept, Skip]),
        Err(ApplyError::NoOriginalContent)
    ));
}

#[test]
fn hunks_for_each_kind_of_change() {
    let create = ChangeEntry {
        destination: "n".to_string(),
        operation: EntryOperation::Staged(SetType::Create),
    };
    let fh = file_hunks_for_change(create, Some(b"a\n".to_vec()), None).unwrap().unwrap();
    assert_eq!(fh.hunks.len(), 1);

    let modify = ChangeEntry::test_entry("f");
    let fh = file_hunks_for_change(modify, Some(MODIFIED.to_vec()), Some(ORIGINAL.to_vec()))
        .unwrap()
        .unwrap();
    assert_eq!(fh.hunks.len(), 2);

    let unchanged = ChangeEntry::test_entry("f");
    assert!(file_hunks_for_change(unchanged, Some(b"x\n".to_vec()), Some(b"x\n".to_vec()))
        .unwrap()
        .is_none());

    let remove = ChangeEntry { destination: "d".to_string(), operation: EntryOperation::Remove };
    let fh = file_hunks_for_change(remove, None, Some(b"a\nb\n".to_vec())).unwrap().unwrap();
    assert_eq!(fh.hunks[0].original_range, (1, 2));

    let rename = ChangeEntry { destination: "r".to_string(), operation: EntryOperation::Rename };
    assert!(file_hunks_for_change(rename, None, None).unwrap().is_none());
}

fn files_for_session() -> Vec<FileHunks> {
    let binary =
        parse_file_to_hunks(b"\x00", b"\x01", "bin", ChangeEntry::test_entry("bin")).unwrap();
    vec![two_hunk_file(), binary, two_hunk_file()]
}

#[test]
fn session_walks_hunks_and_files() {
    let files = files_for_session();
    let mut s = Session::new(&files);
    assert_eq!((s.file_idx, s.hunk_idx), (0, 0));
    assert_eq!(s.step(&files, Some(InteractiveCommand::Yes)), SessionNotice::Nothing);
    assert_eq!(s.hunk_idx, 1);
    assert_eq!(s.step(&files, Some(InteractiveCommand::No)), SessionNotice::Nothing);
    // on to the binary file
    assert_eq!(s.file_idx, 1);
    assert_eq!(s.step(&files, None), SessionNotice::Nothing);
    assert_eq!(s.step(&files, Some(InteractiveCommand::Help)), SessionNotice::Help);
    assert_eq!(s.step(&files, Some(InteractiveCommand::Yes)), SessionNotice::Nothing);
    assert_eq!(s.file_idx, 2);
    assert_eq!(s.step(&files, None), SessionNotice::InvalidCommand);
    assert_eq!(s.step(&files, Some(InteractiveCommand::All)), SessionNotice::Nothing);
    assert!(s.finished);
    assert!(!s.quit_early);
    assert_eq!(s.selections[0], vec![Accept, Skip]);
    assert_eq!(s.selections[1], vec![Accept]);
    assert_eq!(s.selections[2], vec![Accept, Accept]);
}

#[test]
fn session_quit_keeps_selections() {
    let files = files_for_session();
    let mut s = Session::new(&files);
    s.step(&files, Some(InteractiveCommand::Yes));
    s.step(&files, Some(InteractiveCommand::Quit));
    assert!(s.finished);
    assert!(s.quit_early);
    assert_eq!(s.selections[0], vec![Accept, Skip]);
    assert_eq!(s.selections[2], vec![Skip, Skip]);
}

#[test]
fn session_previous_file_from_a_text_file() {
    let files = files_for_session();
    let mut s = Session::new(&files);
    // at the first file going back stays there
    s.step(&files, Some(InteractiveCommand::PrevFile));
    assert_eq!((s.file_idx, s.hunk_idx), (0, 0));
    s.step(&files, Some(InteractiveCommand::Done));
    assert_eq!(s.file_idx, 1);
    s.step(&files, Some(InteractiveCommand::NextFile));
    assert_eq!(s.file_idx, 2);
    // going back from a text file goes to the previous file
    s.step(&files, Some(InteractiveCommand::Yes));
    s.step(&files, Some(InteractiveCommand::PrevFile));
    assert_eq!((s.file_idx, s.hunk_idx), (1, 0));
    assert_eq!(s.selections[2], vec![Accept, Skip]);
    // going back from the binary file goes to the previous file
    let mut t = Session::new(&files);
    t.step(&files, Some(InteractiveCommand::Done));
    t.step(&files, Some(InteractiveCommand::PrevFile));
    assert_eq!((t.file_idx, t.hunk_idx), (0, 0));
}

fn splittable_hunk() -> sandbox::hunk::DiffHunk {
    sandbox::hunk::DiffHunk {
        index: 0,
        header: "@@ -1,10 +1,12 @@".to_string(),
        original_range: (1, 10),
        new_range: (1, 12),
        lines: vec![
            sandbox::hunk::HunkLine::Context("line1".to_string()),
            sandbox::hunk::HunkLine::Added("new line 1".to_string()),
            sandbox::hunk::HunkLine::Context("line2".to_string()),
            sandbox::hunk::HunkLine::Context("line3".to_string()),
            sandbox::hunk::HunkLine::Context("line4".to_string()),
            sandbox::hunk::HunkLine::Context("line5".to_string()),
            sandbox::hunk::HunkLine::Context("line6".to_string()),
            sandbox::hunk::HunkLine::Context("line7".to_string()),
            sandbox::hunk::HunkLine::Added("new line 2".to_string()),
            sandbox::hunk::HunkLine::Context("line8".to_string()),
        ],
    }
}

#[test]
fn session_split_replaces_the_hunk() {
    let mut fh = two_hunk_file();
    fh.hunks = vec![splittable_hunk()];
    let files = vec![fh];
    let mut s = Session::new(&files);
    assert_eq!(s.selections[0], vec![Skip]);
    assert_eq!(s.step(&files, Some(InteractiveCommand::Split)), SessionNotice::Nothing);
    assert_eq!(s.hunks[0].len(), 2);
    assert_eq!(s.selections[0], vec![Skip, Skip]);
    assert_eq!(s.step(&files, Some(InteractiveCommand::Split)), SessionNotice::CannotSplit);
    s.step(&files, Some(InteractiveCommand::No));
    s.step(&files, Some(InteractiveCommand::Yes));
    assert!(s.finished);
    assert_eq!(s.selections[0], vec![Skip, Accept]);
    let (reviewed, selections) = s.into_reviewed(files);
    assert_eq!(reviewed[0].hunks.len(), 2);
    assert_eq!(reviewed[0].hunks[1].original_range, (5, 4));
    assert_eq!(selections[0], vec![Skip, Accept]);
}

#[test]
fn accepting_a_split_piece_applies_only_that_piece() {
    let original = b"line1\nline2\nline3\nline4\nline5\nline6\nline7\nline8\n";
    let modified =
        b"line1\nnew line 1\nline2\nline3\nline4\nline5\nline6\nline7\nnew line 2\nline8\n";
    let mut fh = parse_file_to_hunks(original, modified, "f", ChangeEntry::test_entry("f")).unwrap();
    let mut hunk = splittable_hunk();
    hunk.original_range = (1, 8);
    hunk.new_range = (1, 10);
    fh.hunks = vec![hunk];
    let files = vec![fh];
    let mut s = Session::new(&files);
    s.step(&files, Some(InteractiveCommand::Split));
    s.step(&files, Some(InteractiveCommand::No));
    s.step(&files, Some(InteractiveCommand::Yes));
    let (reviewed, selections) = s.into_reviewed(files);
    let expected: &[u8] = b"line1\nline2\nline3\nline4\nline5\nline6\nline7\nnew line 2\nline8\n";
    assert_eq!(
        apply_selected_hunks_for_accept(&reviewed[0], &selections[0]).unwrap(),
        expected
    );
    match plan_accept(&reviewed[0], &selections[0]).unwrap() {
        FileAction::WritePartial { content, .. } => assert_eq!(content, expected),
        other => panic!("unexpected action {:?}", other),
    }
}

#[test]
fn session_over_no_files_is_finished() {
    let files: Vec<FileHunks> = Vec::new();
    let s = Session::new(&files);
    assert!(s.finished);
    assert!(s.selections.is_empty());
}

#[test]
fn new_file_round_trip() {
    let texts: [&[u8]; 4] = [b"", b"a\n", b"one\ntwo\n\nthree\n", "caf\u{e9}\n\u{1F600}\n".as_bytes()];
    for content in texts {
        let fh = create_new_file_hunks(content, "n", ChangeEntry::test_entry("n")).unwrap();
        assert_eq!(fh.hunks.len(), 1);
        assert_eq!(apply_selected_hunks_to_new_file(&fh, &[Accept]).unwrap(), content);
        assert_eq!(apply_selected_hunks_to_new_file(&fh, &[Skip]).unwrap(), b"");
    }
}
