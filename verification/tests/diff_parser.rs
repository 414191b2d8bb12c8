use sandbox::diff_parser::{
    create_deleted_file_hunks, create_new_file_hunks, parse_file_to_hunks, parse_hunk_header,
    parse_patch_to_hunks, parse_range, DiffParseError,
};
use sandbox::hunk::{ChangeEntry, FileHunks, HunkLine};

#[test]
fn test_parse_hunk_header() {
    let (orig, new) = parse_hunk_header("@@ -1,5 +1,7 @@").unwrap();
    assert_eq!(orig, (1, 5));
    assert_eq!(new, (1, 7));
}

#[test]
fn test_parse_hunk_header_single_line() {
    let (orig, new) = parse_hunk_header("@@ -1 +1 @@").unwrap();
    assert_eq!(orig, (1, 1));
    assert_eq!(new, (1, 1));
}

#[test]
fn test_parse_range() {
    assert_eq!(parse_range("-1,5").unwrap(), (1, 5));
    assert_eq!(parse_range("+10,20").unwrap(), (10, 20));
    assert_eq!(parse_range("-1").unwrap(), (1, 1));
}

#[test]
fn test_parse_file_to_hunks_simple() {
    let original = b"line1\nline2\nline3\n";
    let modified = b"line1\nmodified\nline3\n";

    let path = "/test/file.txt";
    let change_entry = ChangeEntry::test_entry(path);

    let file_hunks =
        parse_file_to_hunks(original, modified, path, change_entry).unwrap();

    assert!(!file_hunks.is_binary);
    assert_eq!(file_hunks.hunks.len(), 1);

    let hunk = &file_hunks.hunks[0];
    assert!(hunk
        .lines
        .iter()
        .any(|l| matches!(l, HunkLine::Removed(s) if s == "line2")));
    assert!(hunk
        .lines
        .iter()
        .any(|l| matches!(l, HunkLine::Added(s) if s == "modified")));
}

#[test]
fn test_binary_detection() {
    let binary_content = b"hello\x00world";
    assert!(FileHunks::is_binary_content(binary_content));

    let text_content = b"hello world\n";
    assert!(!FileHunks::is_binary_content(text_content));
}

#[test]
fn parse_range_rejects_malformed_numbers() {
    assert_eq!(parse_range(""), Err(DiffParseError::InvalidNumber));
    assert_eq!(parse_range("-"), Err(DiffParseError::InvalidNumber));
    assert_eq!(parse_range("-1,x"), Err(DiffParseError::InvalidNumber));
    assert_eq!(parse_range("-a,3"), Err(DiffParseError::InvalidNumber));
    assert_eq!(parse_range("-1,5,6"), Err(DiffParseError::InvalidNumber));
    assert_eq!(parse_range("-1,"), Err(DiffParseError::InvalidNumber));
    assert_eq!(
        parse_range("-99999999999999999999999"),
        Err(DiffParseError::InvalidNumber)
    );
}

#[test]
fn parse_range_strips_every_leading_sign() {
    assert_eq!(parse_range("--+3,4").unwrap(), (3, 4));
    assert_eq!(parse_range("7").unwrap(), (7, 1));
    // a count may carry its own plus sign, as `str::parse` allows
    assert_eq!(parse_range("-2,+6").unwrap(), (2, 6));
    assert_eq!(parse_range("-0,0").unwrap(), (0, 0));
}

#[test]
fn parse_hunk_header_errors() {
    assert_eq!(
        parse_hunk_header("@@ -1,5").unwrap_err(),
        DiffParseError::InvalidHunkHeader
    );
    // the closing marks count as the second range
    assert_eq!(
        parse_hunk_header("@@ -1,5 @@").unwrap_err(),
        DiffParseError::InvalidNewRange
    );
    assert_eq!(
        parse_hunk_header("@@").unwrap_err(),
        DiffParseError::InvalidHunkHeader
    );
    assert_eq!(
        parse_hunk_header("@@ -x,5 +1,7 @@").unwrap_err(),
        DiffParseError::InvalidOriginalRange
    );
    assert_eq!(
        parse_hunk_header("@@ -1,5 +y @@").unwrap_err(),
        DiffParseError::InvalidNewRange
    );
}

#[test]
fn parse_hunk_header_tolerates_marks_and_section() {
    let (o, n) = parse_hunk_header("@@@@  -12,3\t+14,5 @@ fn main() {").unwrap();
    assert_eq!(o, (12, 3));
    assert_eq!(n, (14, 5));
}

#[test]
fn parse_patch_reads_hunks_in_order() {
    let patch = "--- original\n+++ modified\n@@ -1,3 +1,3 @@\n a\n-b\n+B\n c\n@@ -10,2 +10,3 @@\n x\n+y\n\n\\ No newline at end of file\nplain\n";
    let hunks = parse_patch_to_hunks(patch).unwrap();
    assert_eq!(hunks.len(), 2);
    assert_eq!(hunks[0].index, 0);
    assert_eq!(hunks[0].header, "@@ -1,3 +1,3 @@");
    assert_eq!(hunks[0].original_range, (1, 3));
    assert_eq!(hunks[0].lines.len(), 4);
    assert!(matches!(&hunks[0].lines[1], HunkLine::Removed(s) if s == "b"));
    assert!(matches!(&hunks[0].lines[2], HunkLine::Added(s) if s == "B"));
    assert_eq!(hunks[1].index, 1);
    assert_eq!(hunks[1].new_range, (10, 3));
    // " x", "+y", an empty line, the marker (dropped) and an unprefixed line
    assert_eq!(hunks[1].lines.len(), 4);
    assert!(matches!(&hunks[1].lines[2], HunkLine::Context(s) if s.is_empty()));
    assert!(matches!(&hunks[1].lines[3], HunkLine::Context(s) if s == "plain"));
}

#[test]
fn parse_patch_skips_lines_before_first_hunk_and_file_headers() {
    let patch = "garbage\n--- a/f\n+++ b/f\n@@ -1 +1 @@\n--- looks removed\n+++ looks added\n-old\n";
    let hunks = parse_patch_to_hunks(patch).unwrap();
    assert_eq!(hunks.len(), 1);
    assert_eq!(hunks[0].lines.len(), 3);
    assert!(matches!(&hunks[0].lines[0], HunkLine::Removed(s) if s == "-- looks removed"));
    assert!(matches!(&hunks[0].lines[1], HunkLine::Added(s) if s == "++ looks added"));
    assert!(matches!(&hunks[0].lines[2], HunkLine::Removed(s) if s == "old"));
}

#[test]
fn parse_patch_reads_header_like_lines_inside_a_hunk() {
    let hunks = parse_patch_to_hunks("@@ -1,2 +1,1 @@\n a\n---b\n").unwrap();
    assert_eq!(hunks.len(), 1);
    assert_eq!(hunks[0].lines.len(), 2);
    assert!(matches!(&hunks[0].lines[0], HunkLine::Context(s) if s == "a"));
    assert!(matches!(&hunks[0].lines[1], HunkLine::Removed(s) if s == "--b"));
}

#[test]
fn parse_patch_reports_bad_header() {
    let patch = "@@ -1 +1 @@\n a\n@@ -q +1 @@\n";
    assert_eq!(
        parse_patch_to_hunks(patch).unwrap_err(),
        DiffParseError::InvalidOriginalRange
    );
    assert!(parse_patch_to_hunks("").unwrap().is_empty());
}

#[test]
fn parse_file_to_hunks_marks_binary() {
    let fh = parse_file_to_hunks(b"a\x00b", b"a\n", "bin", ChangeEntry::test_entry("bin"))
        .unwrap();
    assert!(fh.is_binary);
    assert!(fh.hunks.is_empty());
    assert_eq!(fh.original_content.as_deref(), Some(&b"a\x00b"[..]));
    assert_eq!(fh.modified_content.as_deref(), Some(&b"a\n"[..]));
}

#[test]
fn parse_file_to_hunks_of_equal_texts_has_no_hunks() {
    let fh = parse_file_to_hunks(b"same\n", b"same\n", "f", ChangeEntry::test_entry("f"))
        .unwrap();
    assert!(!fh.is_binary);
    assert!(fh.hunks.is_empty());
}

#[test]
fn parse_file_to_hunks_two_separate_changes() {
    let original = b"1\n2\n3\n4\n5\n6\n7\n8\n9\n10\n11\n12\n13\n14\n15\n";
    let modified = b"1\nTWO\n3\n4\n5\n6\n7\n8\n9\n10\n11\n12\n13\nFOURTEEN\n15\n";
    let fh = parse_file_to_hunks(original, modified, "f", ChangeEntry::test_entry("f")).unwrap();
    assert_eq!(fh.hunks.len(), 2);
    assert_eq!(fh.hunks[0].original_range, (1, 5));
    assert_eq!(fh.hunks[1].original_range, (11, 5));
    assert_eq!(fh.hunks[1].index, 1);
}

#[test]
fn create_new_file_hunks_adds_every_line() {
    let fh = create_new_file_hunks(b"a\nb\r\nc", "new", ChangeEntry::test_entry("new")).unwrap();
    assert!(!fh.is_binary);
    assert!(fh.original_content.is_none());
    assert_eq!(fh.modified_content.as_deref(), Some(&b"a\nb\r\nc"[..]));
    assert_eq!(fh.hunks.len(), 1);
    let h = &fh.hunks[0];
    assert_eq!(h.header, "@@ -0,0 +1,3 @@");
    assert_eq!(h.original_range, (0, 0));
    assert_eq!(h.new_range, (1, 3));
    assert!(matches!(&h.lines[1], HunkLine::Added(s) if s == "b"));
    assert!(matches!(&h.lines[2], HunkLine::Added(s) if s == "c"));
}

#[test]
fn create_new_file_hunks_replaces_invalid_utf8() {
    let fh = create_new_file_hunks(b"ok\n\xff\xfe\n", "new", ChangeEntry::test_entry("new"))
        .unwrap();
    let h = &fh.hunks[0];
    assert_eq!(h.lines.len(), 2);
    assert!(matches!(&h.lines[1], HunkLine::Added(s) if s == "\u{FFFD}\u{FFFD}"));
}

#[test]
fn create_deleted_file_hunks_removes_every_line() {
    let fh = create_deleted_file_hunks(b"x\ny\n", "gone", ChangeEntry::test_entry("gone"))
        .unwrap();
    assert!(fh.modified_content.is_none());
    let h = &fh.hunks[0];
    assert_eq!(h.header, "@@ -1,2 +0,0 @@");
    assert_eq!(h.original_range, (1, 2));
    assert_eq!(h.new_range, (0, 0));
    assert!(matches!(&h.lines[0], HunkLine::Removed(s) if s == "x"));

    let bin = create_deleted_file_hunks(b"\x00", "gone", ChangeEntry::test_entry("gone")).unwrap();
    assert!(bin.is_binary);
    assert!(bin.hunks.is_empty());
    assert_eq!(bin.original_content.as_deref(), Some(&b"\x00"[..]));
}

#[test]
fn header_reads_back_as_its_ranges() {
    let header = sandbox::hunk::format_header(12, 0, 7, 345);
    assert_eq!(header, "@@ -12,0 +7,345 @@");
    assert_eq!(parse_hunk_header(&header).unwrap(), ((12, 0), (7, 345)));
}

#[test]
fn range_reads_back_from_its_text() {
    for sign in ["-", "+"] {
        for (s, c) in [(0usize, 0usize), (1, 5), (42, 7), (1000, 1), (usize::MAX, usize::MAX)] {
            assert_eq!(parse_range(&format!("{}{},{}", sign, s, c)).unwrap(), (s, c));
            assert_eq!(parse_range(&format!("{}{}", sign, s)).unwrap(), (s, 1));
        }
    }
}
