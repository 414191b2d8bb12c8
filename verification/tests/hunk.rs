use sandbox::hunk::{DiffHunk, FileHunks, HunkLine};

fn ctx(s: &str) -> HunkLine {
    HunkLine::Context(s.to_string())
}

fn add(s: &str) -> HunkLine {
    HunkLine::Added(s.to_string())
}

fn del(s: &str) -> HunkLine {
    HunkLine::Removed(s.to_string())
}

#[test]
fn test_hunk_can_split_single_change() {
    // A hunk with a single change region cannot be split
    let hunk = DiffHunk {
        index: 0,
        header: "@@ -1,3 +1,4 @@".to_string(),
        original_range: (1, 3),
        new_range: (1, 4),
        lines: vec![
            HunkLine::Context("line1".to_string()),
            HunkLine::Added("new line".to_string()),
            HunkLine::Context("line2".to_string()),
        ],
    };
    assert!(!hunk.can_split());
}

#[test]
fn test_hunk_can_split_multiple_changes() {
    // A hunk with multiple change regions separated by context can be split
    let hunk = DiffHunk {
        index: 0,
        header: "@@ -1,10 +1,12 @@".to_string(),
        original_range: (1, 10),
        new_range: (1, 12),
        lines: vec![
            HunkLine::Context("line1".to_string()),
            HunkLine::Added("new line 1".to_string()),
            HunkLine::Context("line2".to_string()),
            HunkLine::Context("line3".to_string()),
            HunkLine::Context("line4".to_string()),
            HunkLine::Context("line5".to_string()),
            HunkLine::Context("line6".to_string()),
            HunkLine::Context("line7".to_string()),
            HunkLine::Added("new line 2".to_string()),
            HunkLine::Context("line8".to_string()),
        ],
    };
    assert!(hunk.can_split());
}

#[test]
fn test_hunk_format_display() {
    let hunk = DiffHunk {
        index: 0,
        header: "@@ -1,3 +1,4 @@".to_string(),
        original_range: (1, 3),
        new_range: (1, 4),
        lines: vec![
            HunkLine::Context("unchanged".to_string()),
            HunkLine::Removed("old line".to_string()),
            HunkLine::Added("new line".to_string()),
        ],
    };

    let display = hunk.format_display(false);
    assert!(display.contains("@@ -1,3 +1,4 @@"));
    assert!(display.contains(" unchanged"));
    assert!(display.contains("-old line"));
    assert!(display.contains("+new line"));
}

#[test]
fn test_hunk_line_types() {
    let context = HunkLine::Context("test".to_string());
    let added = HunkLine::Added("test".to_string());
    let removed = HunkLine::Removed("test".to_string());

    assert!(matches!(context, HunkLine::Context(_)));
    assert!(matches!(added, HunkLine::Added(_)));
    assert!(matches!(removed, HunkLine::Removed(_)));
}

#[test]
fn test_file_hunks_binary_detection() {
    // Text content
    assert!(!FileHunks::is_binary_content(b"hello world\n"));
    assert!(!FileHunks::is_binary_content(b"line1\nline2\nline3"));

    // Binary content (contains null byte)
    assert!(FileHunks::is_binary_content(b"hello\x00world"));
    assert!(FileHunks::is_binary_content(b"\x00"));
}

#[test]
fn format_display_is_exact_without_colour() {
    let hunk = DiffHunk {
        index: 0,
        header: "@@ -1,2 +1,2 @@".to_string(),
        original_range: (1, 2),
        new_range: (1, 2),
        lines: vec![ctx("a"), del("b"), add("c")],
    };
    assert_eq!(hunk.format_display(false), "@@ -1,2 +1,2 @@\n a\n-b\n+c\n");
}

#[test]
fn empty_and_context_only_hunks_cannot_split() {
    let empty = DiffHunk {
        index: 0,
        header: String::new(),
        original_range: (1, 0),
        new_range: (1, 0),
        lines: vec![],
    };
    assert!(!empty.can_split());
    assert!(empty.split().is_none());
    let adjacent = DiffHunk {
        index: 0,
        header: String::new(),
        original_range: (1, 2),
        new_range: (1, 2),
        lines: vec![del("a"), add("b"), del("c")],
    };
    assert!(!adjacent.can_split());
}

fn two_region_hunk() -> DiffHunk {
    DiffHunk {
        index: 0,
        header: "@@ -1,10 +1,12 @@".to_string(),
        original_range: (1, 10),
        new_range: (1, 12),
        lines: vec![
            ctx("line1"),
            add("new line 1"),
            ctx("line2"),
            ctx("line3"),
            ctx("line4"),
            ctx("line5"),
            ctx("line6"),
            ctx("line7"),
            add("new line 2"),
            ctx("line8"),
        ],
    }
}

#[test]
fn split_gives_two_pieces_with_consistent_headers() {
    let pieces = two_region_hunk().split().unwrap();
    assert_eq!(pieces.len(), 2);
    assert_eq!(pieces[0].index, 0);
    assert_eq!(pieces[1].index, 1);
    // first piece: line1, +new line 1, line2..line4
    assert_eq!(pieces[0].lines.len(), 5);
    assert_eq!(pieces[0].original_range, (1, 4));
    assert_eq!(pieces[0].new_range, (1, 5));
    assert_eq!(pieces[0].header, "@@ -1,4 +1,5 @@");
    // second piece: line5..line7, +new line 2, line8
    assert_eq!(pieces[1].lines.len(), 5);
    assert!(matches!(&pieces[1].lines[0], HunkLine::Context(s) if s == "line5"));
    assert!(matches!(&pieces[1].lines[3], HunkLine::Added(s) if s == "new line 2"));
    // line5 is original line 5 and new line 6
    assert_eq!(pieces[1].original_range, (5, 4));
    assert_eq!(pieces[1].new_range, (6, 5));
    assert_eq!(pieces[1].header, "@@ -5,4 +6,5 @@");
    for p in &pieces {
        let (o, n) = sandbox::diff_parser::parse_hunk_header(&p.header).unwrap();
        assert_eq!(o, p.original_range);
        assert_eq!(n, p.new_range);
    }
}

#[test]
fn split_keeps_every_change_in_order() {
    let hunk = DiffHunk {
        index: 3,
        header: String::new(),
        original_range: (20, 17),
        new_range: (30, 16),
        lines: vec![
            ctx("c1"),
            ctx("c2"),
            ctx("c3"),
            ctx("c4"),
            del("r1"),
            add("a1"),
            ctx("c5"),
            ctx("c6"),
            ctx("c7"),
            ctx("c8"),
            ctx("c9"),
            ctx("c10"),
            ctx("c11"),
            del("r2"),
            ctx("c12"),
            del("r3"),
            ctx("c13"),
        ],
    };
    let pieces = hunk.split().unwrap();
    let changes = |ls: &[HunkLine]| -> Vec<String> {
        ls.iter()
            .filter_map(|l| match l {
                HunkLine::Added(s) => Some(format!("+{}", s)),
                HunkLine::Removed(s) => Some(format!("-{}", s)),
                HunkLine::Context(_) => None,
            })
            .collect()
    };
    let mut all = Vec::new();
    for p in &pieces {
        all.extend(changes(&p.lines));
        let old = p.lines.iter().filter(|l| !matches!(l, HunkLine::Added(_))).count();
        let new = p.lines.iter().filter(|l| !matches!(l, HunkLine::Removed(_))).count();
        assert_eq!(p.original_range.1, old);
        assert_eq!(p.new_range.1, new);
    }
    assert_eq!(all, changes(&hunk.lines));
    // one piece per change region
    assert_eq!(pieces.len(), 3);
    // c2..c4 lead the first piece; c9..c11 lead the second
    assert!(matches!(&pieces[0].lines[0], HunkLine::Context(s) if s == "c2"));
    assert_eq!(pieces[0].lines.len(), 8);
    assert_eq!(pieces[0].original_range, (21, 7));
    assert_eq!(pieces[0].new_range, (31, 7));
    // c12 between r2 and r3 goes with the second piece
    assert!(matches!(&pieces[1].lines[0], HunkLine::Context(s) if s == "c9"));
    assert_eq!(pieces[1].lines.len(), 5);
    assert_eq!(pieces[1].original_range, (29, 5));
    assert_eq!(pieces[1].new_range, (39, 4));
    assert!(matches!(&pieces[2].lines[0], HunkLine::Removed(s) if s == "r3"));
    assert_eq!(pieces[2].lines.len(), 2);
    assert_eq!(pieces[2].original_range, (34, 2));
    assert_eq!(pieces[2].new_range, (43, 1));
}

#[test]
fn split_leaves_no_piece_of_context_alone() {
    let mut lines = vec![add("a")];
    for i in 1..=6 {
        lines.push(ctx(&i.to_string()));
    }
    lines.push(add("b"));
    for i in 7..=12 {
        lines.push(ctx(&i.to_string()));
    }
    let hunk = DiffHunk {
        index: 0,
        header: "@@ -1,12 +1,14 @@".to_string(),
        original_range: (1, 12),
        new_range: (1, 14),
        lines,
    };
    let pieces = hunk.split().unwrap();
    assert_eq!(pieces.len(), 2);
    assert!(matches!(&pieces[0].lines[0], HunkLine::Added(s) if s == "a"));
    assert_eq!(pieces[0].lines.len(), 4);
    assert_eq!(pieces[0].original_range, (1, 3));
    assert_eq!(pieces[0].new_range, (1, 4));
    assert!(matches!(&pieces[1].lines[3], HunkLine::Added(s) if s == "b"));
    assert_eq!(pieces[1].lines.len(), 7);
    assert_eq!(pieces[1].original_range, (4, 6));
    assert_eq!(pieces[1].new_range, (5, 7));
    for p in &pieces {
        assert!(p.lines.iter().any(|l| !matches!(l, HunkLine::Context(_))));
    }
}

#[test]
fn close_change_regions_split_between_them() {
    let hunk = DiffHunk {
        index: 0,
        header: String::new(),
        original_range: (1, 6),
        new_range: (1, 6),
        lines: vec![del("a"), ctx("1"), ctx("2"), ctx("3"), ctx("4"), ctx("5"), add("b")],
    };
    assert!(hunk.can_split());
    let pieces = hunk.split().unwrap();
    assert_eq!(pieces.len(), 2);
    // the first three context lines trail the first piece, the other two lead the second
    assert_eq!(pieces[0].lines.len(), 4);
    assert_eq!(pieces[0].original_range, (1, 4));
    assert_eq!(pieces[0].new_range, (1, 3));
    assert_eq!(pieces[0].header, "@@ -1,4 +1,3 @@");
    assert!(matches!(&pieces[1].lines[0], HunkLine::Context(s) if s == "4"));
    assert_eq!(pieces[1].lines.len(), 3);
    assert_eq!(pieces[1].original_range, (5, 2));
    assert_eq!(pieces[1].new_range, (4, 3));
}

#[test]
fn changes_one_context_line_apart_split() {
    let hunk = DiffHunk {
        index: 0,
        header: "@@ -1,1 +1,3 @@".to_string(),
        original_range: (1, 1),
        new_range: (1, 3),
        lines: vec![add("a"), ctx("c"), add("b")],
    };
    assert!(hunk.can_split());
    let pieces = hunk.split().unwrap();
    assert_eq!(pieces.len(), 2);
    assert_eq!(pieces[0].lines.len(), 2);
    assert_eq!(pieces[0].original_range, (1, 1));
    assert_eq!(pieces[0].new_range, (1, 2));
    assert_eq!(pieces[1].lines.len(), 1);
    assert!(matches!(&pieces[1].lines[0], HunkLine::Added(s) if s == "b"));
    assert_eq!(pieces[1].original_range, (2, 0));
    assert_eq!(pieces[1].new_range, (3, 1));
}

#[test]
fn clone_copies_a_hunk() {
    let h = two_region_hunk();
    let c = h.clone();
    assert_eq!(c.header, h.header);
    assert_eq!(c.lines.len(), h.lines.len());
}
