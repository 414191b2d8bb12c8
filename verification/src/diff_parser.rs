//! Unified diffs: hunk headers, ranges, and the hunks of a patch.
use vstd::prelude::*;
use vstd::utf8::{decode_utf8, valid_utf8};

use crate::hunk::{
    format_header, header_text, hunk_models, line_models, opt_bytes, ChangeEntry, DiffHunk,
    FileHunks, HunkLine, HunkModel, LineKind, LineModel,
};
use crate::text::{
    decimal, decode_lossy, lossy_text, chars_of, lines_of, split_lines, string_from_chars, string_views, parse_usize, parse_usize_spec, skip_hunk_marks, skip_leading_ws, skip_signs,
    skip_trailing_ws, strip_hunk_marks, strip_signs, sub_vec, trim_ws, word_bounds, words_of,
};

verus! {

/// Why a patch could not be read.
#[derive(Debug, Clone, Copy, PartialEq, Eq, Structural)]
pub enum DiffParseError {
    /// A range start or count is not a number
    InvalidNumber,
    /// A hunk header has fewer than two ranges
    InvalidHunkHeader,
    /// The original range of a hunk header is not a range
    InvalidOriginalRange,
    /// The new range of a hunk header is not a range
    InvalidNewRange,
}

/// The position of the first `c` in `s`, or -1.
pub open spec fn index_of(s: Seq<char>, c: char) -> int
    decreases s.len(),
{
    if s.len() == 0 {
        -1
    } else if s[0] == c {
        0
    } else {
        let k = index_of(s.drop_first(), c);
        if k < 0 {
            -1
        } else {
            k + 1
        }
    }
}

proof fn lemma_index_of(s: Seq<char>, c: char, k: int)
    requires
        0 <= k <= s.len(),
        forall|j: int| 0 <= j < k ==> s[j] != c,
    ensures
        k < s.len() && s[k] == c ==> index_of(s, c) == k,
        k == s.len() ==> index_of(s, c) == -1,
    decreases k,
{
    if k > 0 {
        lemma_index_of(s.drop_first(), c, k - 1);
    }
}

/// What a range such as `"-1,5"`, `"+10,20"` or `"-1"` stands for: leading
/// signs dropped, then `start,count`, or a lone start with a count of one.
pub open spec fn parse_range_spec(s: Seq<char>) -> Option<(usize, usize)> {
    let r = strip_signs(s);
    let i = index_of(r, ',');
    if i >= 0 {
        match (parse_usize_spec(r.take(i)), parse_usize_spec(r.skip(i + 1))) {
            (Some(start), Some(count)) => Some((start, count)),
            _ => None,
        }
    } else {
        match parse_usize_spec(r) {
            Some(start) => Some((start, 1)),
            None => None,
        }
    }
}

/// Reads the range held in `v[lo..hi]`.
fn parse_range_in(v: &Vec<char>, lo: usize, hi: usize) -> (r: Option<(usize, usize)>)
    requires
        lo <= hi <= v@.len(),
    ensures
        r == parse_range_spec(v@.subrange(lo as int, hi as int)),
{
    let start = skip_signs(v, lo, hi);
    let ghost rs = v@.subrange(start as int, hi as int);
    let mut k = start;
    while k < hi && v[k] != ','
        invariant
            start <= k <= hi <= v@.len(),
            rs == v@.subrange(start as int, hi as int),
            forall|j: int| 0 <= j < k - start ==> rs[j] != ',',
        decreases hi - k,
    {
        k += 1;
    }
    proof {
        lemma_index_of(rs, ',', k - start);
    }
    if k < hi {
        assert(rs.take(k - start) =~= v@.subrange(start as int, k as int));
        assert(rs.skip(k - start + 1) =~= v@.subrange(k + 1, hi as int));
        match (parse_usize(v, start, k), parse_usize(v, k + 1, hi)) {
            (Some(a), Some(b)) => Some((a, b)),
            _ => None,
        }
    } else {
        match parse_usize(v, start, hi) {
            Some(a) => Some((a, 1)),
            None => None,
        }
    }
}

/// Parse a range like "-1,5" or "+1,7" into (start, count)
pub fn parse_range(range_str: &str) -> (r: Result<(usize, usize), DiffParseError>)
    ensures
        match r {
            Ok(p) => parse_range_spec(range_str@) == Some(p),
            Err(e) => parse_range_spec(range_str@) is None && e == DiffParseError::InvalidNumber,
        },
{
    let v = chars_of(range_str);
    assert(v@.subrange(0, v@.len() as int) =~= v@);
    match parse_range_in(&v, 0, v.len()) {
        Some(p) => Ok(p),
        None => Err(DiffParseError::InvalidNumber),
    }
}

/// What a hunk header such as `"@@ -1,5 +1,7 @@"` stands for: after the
/// leading `"@@"` marks and surrounding white space, its first two words are
/// the original and the new range.
pub open spec fn parse_hunk_header_spec(s: Seq<char>) -> Result<
    ((usize, usize), (usize, usize)),
    DiffParseError,
> {
    let ws = words_of(trim_ws(strip_hunk_marks(s)));
    if ws.len() < 2 {
        Err(DiffParseError::InvalidHunkHeader)
    } else {
        match parse_range_spec(ws[0]) {
            None => Err(DiffParseError::InvalidOriginalRange),
            Some(o) => match parse_range_spec(ws[1]) {
                None => Err(DiffParseError::InvalidNewRange),
                Some(n) => Ok((o, n)),
            },
        }
    }
}

/// Reads the hunk header held in `v`.
fn parse_hunk_header_chars(v: &Vec<char>) -> (r: Result<
    ((usize, usize), (usize, usize)),
    DiffParseError,
>)
    ensures
        r == parse_hunk_header_spec(v@),
{
    let n = v.len();
    assert(v@.subrange(0, n as int) =~= v@);
    let a = skip_hunk_marks(v, 0, n);
    let b = skip_leading_ws(v, a, n);
    let c = skip_trailing_ws(v, b, n);
    let t = sub_vec(v, b, c);
    assert(t@ == trim_ws(strip_hunk_marks(v@)));
    let bounds = word_bounds(&t);
    if bounds.len() < 2 {
        return Err(DiffParseError::InvalidHunkHeader);
    }
    let (s0, e0) = bounds[0];
    let (s1, e1) = bounds[1];
    let ghost ws = words_of(t@);
    assert(ws[0] == t@.subrange(s0 as int, e0 as int));
    assert(ws[1] == t@.subrange(s1 as int, e1 as int));
    let orig = match parse_range_in(&t, s0, e0) {
        Some(o) => o,
        None => {
            return Err(DiffParseError::InvalidOriginalRange);
        },
    };
    let new = match parse_range_in(&t, s1, e1) {
        Some(x) => x,
        None => {
            return Err(DiffParseError::InvalidNewRange);
        },
    };
    Ok((orig, new))
}

/// Parse a hunk header like "@@ -1,5 +1,7 @@" into ranges
pub fn parse_hunk_header(header: &str) -> (r: Result<
    ((usize, usize), (usize, usize)),
    DiffParseError,
>)
    ensures
        r == parse_hunk_header_spec(header@),
{
    let v = chars_of(header);
    parse_hunk_header_chars(&v)
}

// ---------------------------------------------------------------------------
// Patches
// ---------------------------------------------------------------------------

/// `s` begins with `p`.
pub open spec fn starts_with(s: Seq<char>, p: Seq<char>) -> bool {
    p.len() <= s.len() && s.take(p.len() as int) == p
}

/// The marker line `"\ No newline at end of file"`.
pub open spec fn no_newline_marker() -> Seq<char> {
    seq![
        '\\', ' ', 'N', 'o', ' ', 'n', 'e', 'w', 'l', 'i', 'n', 'e', ' ', 'a', 't', ' ', 'e', 'n',
        'd', ' ', 'o', 'f', ' ', 'f', 'i', 'l', 'e',
    ]
}

/// What a line inside a hunk adds to it: `'+'`, `'-'` and `' '` mark added,
/// removed and context lines; an empty line is an empty context line; the
/// no-newline marker adds nothing; any other line is context as it stands.
pub open spec fn body_line(line: Seq<char>) -> Option<LineModel> {
    if line.len() > 0 && line[0] == '+' {
        Some(LineModel { kind: LineKind::Added, text: line.drop_first() })
    } else if line.len() > 0 && line[0] == '-' {
        Some(LineModel { kind: LineKind::Removed, text: line.drop_first() })
    } else if line.len() > 0 && line[0] == ' ' {
        Some(LineModel { kind: LineKind::Context, text: line.drop_first() })
    } else if line.len() == 0 {
        Some(LineModel { kind: LineKind::Context, text: seq![] })
    } else if line == no_newline_marker() {
        None
    } else {
        Some(LineModel { kind: LineKind::Context, text: line })
    }
}

/// A body line made of `+`, `-` or a space and a text reads as an added,
/// removed or context line holding that text, whatever it is (the empty text
/// too); an empty body line reads as an empty context line.
pub proof fn law_body_line_reads_prefix(t: Seq<char>)
    ensures
        body_line(seq!['+'] + t) == Some(LineModel { kind: LineKind::Added, text: t }),
        body_line(seq!['-'] + t) == Some(LineModel { kind: LineKind::Removed, text: t }),
        body_line(seq![' '] + t) == Some(LineModel { kind: LineKind::Context, text: t }),
        body_line(Seq::<char>::empty()) == Some(
            LineModel { kind: LineKind::Context, text: Seq::<char>::empty() },
        ),
{
    assert((seq!['+'] + t).drop_first() =~= t);
    assert((seq!['-'] + t).drop_first() =~= t);
    assert((seq![' '] + t).drop_first() =~= t);
    assert((seq!['+'] + t)[0] == '+');
    assert((seq!['-'] + t)[0] == '-');
    assert((seq![' '] + t)[0] == ' ');
}

/// The hunk that a header and its body lines read as.
pub open spec fn hunk_of_body(header: Seq<char>, body: Seq<Seq<char>>) -> HunkModel {
    let (o, n) = parse_hunk_header_spec(header).unwrap();
    HunkModel {
        index: 0,
        header,
        original_range: o,
        new_range: n,
        lines: Seq::new(body.len(), |i: int| body_line(body[i]).unwrap()),
    }
}

/// A line that can stand in a hunk's body: no hunk header and not the
/// no-newline marker.
pub open spec fn plain_body_line(line: Seq<char>) -> bool {
    !starts_with(line, seq!['@', '@']) && line != no_newline_marker()
}

proof fn lemma_scan_body(header: Seq<char>, body: Seq<Seq<char>>)
    requires
        starts_with(header, seq!['@', '@']),
        parse_hunk_header_spec(header) is Ok,
        forall|i: int| 0 <= i < body.len() ==> plain_body_line(#[trigger] body[i]),
    ensures
        patch_scan(seq![header] + body) == Ok::<_, DiffParseError>(
            PatchScan { done: seq![], current: Some(hunk_of_body(header, body)) },
        ),
    decreases body.len(),
{
    let lines = seq![header] + body;
    if body.len() == 0 {
        assert(lines.drop_last() =~= Seq::<Seq<char>>::empty());
        assert(lines.last() == header);
        let done = patch_finish(PatchScan { done: seq![], current: None });
        assert(done =~= Seq::<HunkModel>::empty());
        let (o, n) = parse_hunk_header_spec(header).unwrap();
        assert((HunkModel {
            index: done.len() as usize,
            header: header,
            original_range: o,
            new_range: n,
            lines: seq![],
        }) =~= hunk_of_body(header, body));
        assert(patch_scan(lines) == patch_step(patch_scan(lines.drop_last()), lines.last()));
        assert(patch_scan(lines.drop_last()) == Ok::<_, DiffParseError>(
            PatchScan { done: seq![], current: None },
        ));
        assert(patch_scan(lines).unwrap() =~= PatchScan {
            done: seq![],
            current: Some(hunk_of_body(header, body)),
        });
    } else {
        let p = body.drop_last();
        assert forall|i: int| 0 <= i < p.len() implies plain_body_line(#[trigger] p[i]) by {
            assert(p[i] == body[i]);
        }
        lemma_scan_body(header, p);
        assert(lines.drop_last() =~= seq![header] + p);
        assert(lines.last() == body.last());
        let line = body.last();
        assert(plain_body_line(body[body.len() - 1]));
        assert(body_line(line) is Some);
        let h0 = hunk_of_body(header, p);
        assert(hunk_of_body(header, body) =~= HunkModel {
            lines: h0.lines.push(body_line(line).unwrap()),
            ..h0
        });
        assert(patch_scan(lines) == patch_step(patch_scan(lines.drop_last()), lines.last()));
        assert(!starts_with(line, seq!['@', '@']));
        assert(patch_scan(lines).unwrap() =~= PatchScan {
            done: seq![],
            current: Some(hunk_of_body(header, body)),
        });
    }
}

/// A hunk header followed by body lines (none of them a hunk header or the
/// no-newline marker) reads as one hunk that holds every body line, in
/// order, as `body_line` reads it, with the ranges of its header.
pub proof fn law_hunk_body_read_in_order(header: Seq<char>, body: Seq<Seq<char>>)
    requires
        starts_with(header, seq!['@', '@']),
        parse_hunk_header_spec(header) is Ok,
        forall|i: int| 0 <= i < body.len() ==> plain_body_line(#[trigger] body[i]),
    ensures
        patch_scan(seq![header] + body) matches Ok(st) && patch_finish(st) == seq![
            hunk_of_body(header, body),
        ],
{
    lemma_scan_body(header, body);
    assert(patch_finish(patch_scan(seq![header] + body).unwrap()) =~= seq![hunk_of_body(header, body)]);
}

/// The hunks closed so far and the hunk still open.
#[verifier::ext_equal]
pub struct PatchScan {
    pub done: Seq<HunkModel>,
    pub current: Option<HunkModel>,
}

/// The closed hunks followed by the open one.
pub open spec fn patch_finish(st: PatchScan) -> Seq<HunkModel> {
    match st.current {
        Some(h) => st.done.push(h),
        None => st.done,
    }
}

/// The scan over one line of a patch.
pub open spec fn patch_step(st: Result<PatchScan, DiffParseError>, line: Seq<char>) -> Result<
    PatchScan,
    DiffParseError,
> {
    match st {
        Err(e) => Err(e),
        Ok(st) => if starts_with(line, seq!['@', '@']) {
            match parse_hunk_header_spec(line) {
                Err(e) => Err(e),
                Ok((o, n)) => {
                    let done = patch_finish(st);
                    Ok(
                        PatchScan {
                            done,
                            current: Some(
                                HunkModel {
                                    index: done.len() as usize,
                                    header: line,
                                    original_range: o,
                                    new_range: n,
                                    lines: seq![],
                                },
                            ),
                        },
                    )
                },
            }
        } else {
            // lines before the first hunk header, the file headers among
            // them, belong to no hunk
            match st.current {
                None => Ok(st),
                Some(h) => match body_line(line) {
                    None => Ok(st),
                    Some(l) => Ok(PatchScan { current: Some(HunkModel { lines: h.lines.push(l), ..h }), ..st }),
                },
            }
        },
    }
}

/// The scan over the lines of a patch.
pub open spec fn patch_scan(lines: Seq<Seq<char>>) -> Result<PatchScan, DiffParseError>
    decreases lines.len(),
{
    if lines.len() == 0 {
        Ok(PatchScan { done: seq![], current: None })
    } else {
        patch_step(patch_scan(lines.drop_last()), lines.last())
    }
}

/// The hunks of a unified diff; the error of its first malformed hunk header.
pub open spec fn parse_patch_spec(patch: Seq<char>) -> Result<Seq<HunkModel>, DiffParseError> {
    match patch_scan(lines_of(patch)) {
        Ok(st) => Ok(patch_finish(st)),
        Err(e) => Err(e),
    }
}

/// The model of an optional hunk.
pub open spec fn opt_model(h: Option<DiffHunk>) -> Option<HunkModel> {
    match h {
        Some(h) => Some(h@),
        None => None,
    }
}

/// Whether `v` equals the no-newline marker.
fn is_no_newline_marker(v: &Vec<char>) -> (r: bool)
    ensures
        r == (v@ == no_newline_marker()),
{
    let m: [char; 27] = [
        '\\', ' ', 'N', 'o', ' ', 'n', 'e', 'w', 'l', 'i', 'n', 'e', ' ', 'a', 't', ' ', 'e', 'n',
        'd', ' ', 'o', 'f', ' ', 'f', 'i', 'l', 'e',
    ];
    assert(m@ =~= no_newline_marker());
    if v.len() != 27 {
        return false;
    }
    let mut i: usize = 0;
    while i < 27
        invariant
            i <= 27,
            v@.len() == 27,
            m@ == no_newline_marker(),
            forall|j: int| 0 <= j < i ==> v@[j] == m@[j],
        decreases 27 - i,
    {
        if v[i] != m[i] {
            return false;
        }
        i += 1;
    }
    assert(v@ =~= m@);
    true
}

/// The line that `v` adds to a hunk (see `body_line`).
fn read_body_line(v: &Vec<char>) -> (r: Option<HunkLine>)
    ensures
        match r {
            Some(l) => body_line(v@) == Some(l@),
            None => body_line(v@) is None,
        },
{
    let n = v.len();
    if n > 0 && v[0] == '+' {
        assert(v@.subrange(1, n as int) =~= v@.drop_first());
        Some(HunkLine::Added(string_from_chars(v, 1, n)))
    } else if n > 0 && v[0] == '-' {
        assert(v@.subrange(1, n as int) =~= v@.drop_first());
        Some(HunkLine::Removed(string_from_chars(v, 1, n)))
    } else if n > 0 && v[0] == ' ' {
        assert(v@.subrange(1, n as int) =~= v@.drop_first());
        Some(HunkLine::Context(string_from_chars(v, 1, n)))
    } else if n == 0 {
        Some(HunkLine::Context(String::new()))
    } else if is_no_newline_marker(v) {
        None
    } else {
        assert(v@.subrange(0, n as int) =~= v@);
        Some(HunkLine::Context(string_from_chars(v, 0, n)))
    }
}

/// The scan of `parse_patch_to_hunks` over one line.
fn patch_line(hunks: Vec<DiffHunk>, current: Option<DiffHunk>, line: &String) -> (r: Result<
    (Vec<DiffHunk>, Option<DiffHunk>),
    DiffParseError,
>)
    ensures
        match r {
            Ok((h, c)) => patch_step(
                Ok(PatchScan { done: hunk_models(hunks@), current: opt_model(current) }),
                line@,
            ) == Ok::<_, DiffParseError>(PatchScan { done: hunk_models(h@), current: opt_model(c) }),
            Err(e) => patch_step(
                Ok(PatchScan { done: hunk_models(hunks@), current: opt_model(current) }),
                line@,
            ) == Err::<PatchScan, _>(e),
        },
{
    let ghost st = PatchScan { done: hunk_models(hunks@), current: opt_model(current) };
    let mut hunks = hunks;
    let mut current = current;
    let lc = chars_of(line.as_str());
    let n = lc.len();
    if n >= 2 && lc[0] == '@' && lc[1] == '@' {
        assert(starts_with(lc@, seq!['@', '@'])) by {
            assert(lc@.take(2) =~= seq!['@', '@']);
        }
        match parse_hunk_header_chars(&lc) {
            Err(e) => Err(e),
            Ok((o, nr)) => {
                match current {
                    Some(h) => {
                        hunks.push(h);
                    },
                    None => {},
                }
                assert(hunk_models(hunks@) =~= patch_finish(st));
                let index = hunks.len();
                let fresh = DiffHunk {
                    index,
                    header: line.clone(),
                    original_range: o,
                    new_range: nr,
                    lines: Vec::new(),
                };
                assert(line_models(fresh.lines@) =~= Seq::<LineModel>::empty());
                let c = Some(fresh);
                assert(PatchScan { done: hunk_models(hunks@), current: opt_model(c) }
                    =~= patch_step(Ok(st), line@).unwrap());
                Ok((hunks, c))
            },
        }
    } else {
        assert(!starts_with(lc@, seq!['@', '@'])) by {
            if 2 <= n {
                assert(lc@.take(2)[0] == lc@[0]);
                assert(lc@.take(2)[1] == lc@[1]);
            }
        }
        match current {
            Some(mut h) => {
                match read_body_line(&lc) {
                    Some(l) => {
                        let ghost before = h@;
                        h.lines.push(l);
                        assert(h@.lines =~= before.lines.push(l@));
                        assert(h@ =~= HunkModel { lines: before.lines.push(l@), ..before });
                    },
                    None => {},
                }
                current = Some(h);
            },
            None => {},
        }
        assert(PatchScan { done: hunk_models(hunks@), current: opt_model(current) }
            =~= patch_step(Ok(st), line@).unwrap());
        Ok((hunks, current))
    }
}

/// Parse a unified diff patch string into DiffHunk structures
pub fn parse_patch_to_hunks(patch_str: &str) -> (r: Result<Vec<DiffHunk>, DiffParseError>)
    ensures
        match r {
            Ok(hs) => parse_patch_spec(patch_str@) == Ok::<_, DiffParseError>(hunk_models(hs@)),
            Err(e) => parse_patch_spec(patch_str@) == Err::<Seq<HunkModel>, _>(e),
        },
{
    let text = chars_of(patch_str);
    let lines = split_lines(&text);
    let ghost ls = lines_of(patch_str@);
    let mut hunks: Vec<DiffHunk> = Vec::new();
    let mut current: Option<DiffHunk> = None;
    let mut i: usize = 0;
    assert(ls.take(0) =~= Seq::<Seq<char>>::empty());
    assert(PatchScan { done: hunk_models(hunks@), current: opt_model(current) } =~= PatchScan {
        done: seq![],
        current: None,
    });
    while i < lines.len()
        invariant
            i <= lines@.len(),
            string_views(lines@) == ls,
            ls == lines_of(patch_str@),
            patch_scan(ls.take(i as int)) == Ok::<_, DiffParseError>(
                PatchScan { done: hunk_models(hunks@), current: opt_model(current) },
            ),
        decreases lines@.len() - i,
    {
        assert(ls.take(i + 1).drop_last() =~= ls.take(i as int));
        assert(ls.take(i + 1).last() == lines@[i as int]@);
        match patch_line(hunks, current, &lines[i]) {
            Ok((h, c)) => {
                hunks = h;
                current = c;
            },
            Err(e) => {
                assert(patch_scan(ls.take(i + 1)) == Err::<PatchScan, _>(e));
                proof {
                    lemma_patch_scan_error(ls, i as int + 1);
                }
                assert(patch_scan(ls) == Err::<PatchScan, _>(e));
                return Err(e);
            },
        }
        i += 1;
    }
    assert(ls.take(lines@.len() as int) =~= ls);
    let ghost st = PatchScan { done: hunk_models(hunks@), current: opt_model(current) };
    match current {
        Some(h) => {
            hunks.push(h);
        },
        None => {},
    }
    assert(hunk_models(hunks@) =~= patch_finish(st));
    Ok(hunks)
}

/// The hunks of the scan are numbered by their positions.
pub open spec fn scan_numbered(st: PatchScan) -> bool {
    &&& forall|k: int| 0 <= k < st.done.len() ==> (#[trigger] st.done[k]).index == k
    &&& st.current matches Some(h) ==> h.index == st.done.len()
    &&& st.done.len() <= usize::MAX
}

proof fn lemma_patch_scan_numbered(lines: Seq<Seq<char>>)
    requires
        lines.len() <= usize::MAX,
    ensures
        patch_scan(lines) matches Ok(st) ==> scan_numbered(st) && st.done.len() + (if st.current is Some {
            1int
        } else {
            0int
        }) <= lines.len(),
    decreases lines.len(),
{
    if lines.len() > 0 {
        lemma_patch_scan_numbered(lines.drop_last());
        if let Ok(st) = patch_scan(lines.drop_last()) {
            let line = lines.last();
            if starts_with(line, seq!['@', '@']) {
                if let Ok(_) = parse_hunk_header_spec(line) {
                    let done = patch_finish(st);
                    assert forall|k: int| 0 <= k < done.len() implies (#[trigger] done[k]).index == k by {
                        if k < st.done.len() {
                            assert(done[k] == st.done[k]);
                        }
                    }
                }
            }
        }
    }
}

/// The hunks read from a patch are numbered 0, 1, 2, ... in order.
pub proof fn law_patch_hunks_numbered(patch: Seq<char>)
    requires
        lines_of(patch).len() <= usize::MAX,
    ensures
        parse_patch_spec(patch) matches Ok(hs) ==> forall|k: int|
            0 <= k < hs.len() ==> (#[trigger] hs[k]).index == k,
{
    lemma_patch_scan_numbered(lines_of(patch));
    if let Ok(st) = patch_scan(lines_of(patch)) {
        let hs = patch_finish(st);
        assert forall|k: int| 0 <= k < hs.len() implies (#[trigger] hs[k]).index == k by {
            if k < st.done.len() {
                assert(hs[k] == st.done[k]);
            }
        }
    }
}

/// Once the scan of a patch fails it stays failed.
proof fn lemma_patch_scan_error(ls: Seq<Seq<char>>, k: int)
    requires
        0 <= k <= ls.len(),
        patch_scan(ls.take(k)) is Err,
    ensures
        patch_scan(ls) == patch_scan(ls.take(k)),
    decreases ls.len() - k,
{
    if k < ls.len() {
        assert(ls.take(k + 1).drop_last() =~= ls.take(k));
        lemma_patch_scan_error(ls, k + 1);
    } else {
        assert(ls.take(k) =~= ls);
    }
}

// ---------------------------------------------------------------------------
// Files
// ---------------------------------------------------------------------------

/// The patch text that `diffy` writes for two texts with the given number of
/// context lines.
pub uninterp spec fn diffy_patch_text(original: Seq<char>, modified: Seq<char>, context: usize) -> Seq<char>;

/// Create a patch with specified context lines, by calling
/// `diffy::DiffOptions::create_patch` and writing the patch out with
/// `to_string`.  Claimed of it: the text depends on the two texts and the
/// number of context lines alone (`diffy_patch_text`); what diff it holds is
/// not stated.
#[verifier::external_body]
fn create_patch_with_context(original: &str, modified: &str, context: usize) -> (patch: String)
    ensures
        patch@ == diffy_patch_text(original@, modified@, context),
{
    let mut opts = diffy::DiffOptions::new();
    opts.set_context_len(context);
    let patch = opts.create_patch(original, modified);
    patch.to_string()
}

/// The text files are diffed as: their bytes decoded, invalid UTF-8 replaced.
pub open spec fn file_text(content: Seq<u8>) -> Seq<char> {
    lossy_text(content)
}

/// The contents of a binary file, with no hunks.
pub open spec fn binary_file_hunks(
    fh: FileHunks,
    path: Seq<char>,
    original: Option<Seq<u8>>,
    modified: Option<Seq<u8>>,
    change_entry: ChangeEntry,
) -> bool {
    &&& fh.path@ == path
    &&& opt_bytes(fh.original_content) == original
    &&& opt_bytes(fh.modified_content) == modified
    &&& fh.hunks@.len() == 0
    &&& fh.is_binary
    &&& fh.change_entry == change_entry
}

/// The contents of a text file with the given hunks.
pub open spec fn text_file_hunks(
    fh: FileHunks,
    path: Seq<char>,
    original: Option<Seq<u8>>,
    modified: Option<Seq<u8>>,
    hunks: Seq<HunkModel>,
    change_entry: ChangeEntry,
) -> bool {
    &&& fh.path@ == path
    &&& opt_bytes(fh.original_content) == original
    &&& opt_bytes(fh.modified_content) == modified
    &&& hunk_models(fh.hunks@) == hunks
    &&& !fh.is_binary
    &&& fh.change_entry == change_entry
}

/// The hunks of a modified text file, read from the patch that compares its
/// two versions.
pub fn file_hunks_from_patch(
    original: &[u8],
    modified: &[u8],
    path: &str,
    change_entry: ChangeEntry,
    patch: &str,
) -> (r: Result<FileHunks, DiffParseError>)
    ensures
        match r {
            Ok(fh) => parse_patch_spec(patch@) matches Ok(hs) && text_file_hunks(
                fh,
                path@,
                Some(original@),
                Some(modified@),
                hs,
                change_entry,
            ),
            Err(e) => parse_patch_spec(patch@) == Err::<Seq<HunkModel>, _>(e),
        },
{
    let hunks = parse_patch_to_hunks(patch)?;
    Ok(
        FileHunks {
            path: path.to_owned(),
            original_content: Some(vstd::slice::slice_to_vec(original)),
            modified_content: Some(vstd::slice::slice_to_vec(modified)),
            hunks,
            is_binary: false,
            change_entry,
        },
    )
}

/// Parse file contents into hunks using diffy
pub fn parse_file_to_hunks(
    original: &[u8],
    modified: &[u8],
    path: &str,
    change_entry: ChangeEntry,
) -> (r: Result<FileHunks, DiffParseError>)
    ensures
        original@.contains(0u8) || modified@.contains(0u8) ==> (r matches Ok(fh)
            && binary_file_hunks(fh, path@, Some(original@), Some(modified@), change_entry)),
        !(original@.contains(0u8) || modified@.contains(0u8)) ==> {
            let patch = diffy_patch_text(file_text(original@), file_text(modified@), 3);
            match r {
                Ok(fh) => parse_patch_spec(patch) matches Ok(hs) && text_file_hunks(
                    fh,
                    path@,
                    Some(original@),
                    Some(modified@),
                    hs,
                    change_entry,
                ),
                Err(e) => parse_patch_spec(patch) == Err::<Seq<HunkModel>, _>(e),
            }
        },
{
    // Check for binary content
    if FileHunks::is_binary_content(original) || FileHunks::is_binary_content(modified) {
        return Ok(
            FileHunks {
                path: path.to_owned(),
                original_content: Some(vstd::slice::slice_to_vec(original)),
                modified_content: Some(vstd::slice::slice_to_vec(modified)),
                hunks: Vec::new(),
                is_binary: true,
                change_entry,
            },
        );
    }
    // Convert to strings for text diffing
    let original_str = decode_lossy(original);
    let modified_str = decode_lossy(modified);
    // Create patch using diffy with context lines
    let patch = create_patch_with_context(original_str.as_str(), modified_str.as_str(), 3);
    // Parse the patch into our hunk structures
    file_hunks_from_patch(original, modified, path, change_entry, patch.as_str())
}

/// Every line of a file as one kind of hunk line.
pub open spec fn whole_file_lines(lines: Seq<Seq<char>>, kind: LineKind) -> Seq<LineModel> {
    Seq::new(lines.len(), |i: int| LineModel { kind, text: lines[i] })
}

/// The single hunk that adds every line of a new file.
pub open spec fn new_file_hunk(content: Seq<u8>) -> HunkModel {
    let ls = lines_of(file_text(content));
    HunkModel {
        index: 0,
        header: header_text(0, 0, 1, ls.len()),
        original_range: (0, 0),
        new_range: (1, ls.len() as usize),
        lines: whole_file_lines(ls, LineKind::Added),
    }
}

/// The single hunk that removes every line of a deleted file.
pub open spec fn deleted_file_hunk(content: Seq<u8>) -> HunkModel {
    let ls = lines_of(file_text(content));
    HunkModel {
        index: 0,
        header: header_text(1, ls.len(), 0, 0),
        original_range: (1, ls.len() as usize),
        new_range: (0, 0),
        lines: whole_file_lines(ls, LineKind::Removed),
    }
}

/// The lines of a text as hunk lines of one kind.
pub fn whole_file_hunk_lines(lines: &Vec<String>, added: bool) -> (r: Vec<HunkLine>)
    ensures
        line_models(r@) == whole_file_lines(
            string_views(lines@),
            if added {
                LineKind::Added
            } else {
                LineKind::Removed
            },
        ),
{
    let ghost ls = string_views(lines@);
    let ghost kind = if added {
        LineKind::Added
    } else {
        LineKind::Removed
    };
    let mut r: Vec<HunkLine> = Vec::new();
    let mut i: usize = 0;
    while i < lines.len()
        invariant
            i <= lines@.len(),
            string_views(lines@) == ls,
            kind == (if added {
                LineKind::Added
            } else {
                LineKind::Removed
            }),
            r@.len() == i,
            forall|j: int|
                0 <= j < i ==> (#[trigger] r@[j])@ == (LineModel { kind, text: ls[j] }),
        decreases lines@.len() - i,
    {
        let s = lines[i].clone();
        if added {
            r.push(HunkLine::Added(s));
        } else {
            r.push(HunkLine::Removed(s));
        }
        i += 1;
    }
    assert(line_models(r@) =~= whole_file_lines(ls, kind));
    r
}

/// Create hunks for a new file (entire file is one "added" hunk)
pub fn create_new_file_hunks(content: &[u8], path: &str, change_entry: ChangeEntry) -> (r: Result<
    FileHunks,
    DiffParseError,
>)
    ensures
        content@.contains(0u8) ==> (r matches Ok(fh) && binary_file_hunks(
            fh,
            path@,
            None,
            Some(content@),
            change_entry,
        )),
        !content@.contains(0u8) ==> (r matches Ok(fh) && text_file_hunks(
            fh,
            path@,
            None,
            Some(content@),
            seq![new_file_hunk(content@)],
            change_entry,
        )),
        !content@.contains(0u8) && valid_utf8(content@) ==> new_file_hunk(content@).lines
            == whole_file_lines(lines_of(decode_utf8(content@)), LineKind::Added),
{
    if FileHunks::is_binary_content(content) {
        return Ok(
            FileHunks {
                path: path.to_owned(),
                original_content: None,
                modified_content: Some(vstd::slice::slice_to_vec(content)),
                hunks: Vec::new(),
                is_binary: true,
                change_entry,
            },
        );
    }
    let lines = crate::text::text_lines_of(content);
    let hunk_lines = whole_file_hunk_lines(&lines, true);
    let line_count = hunk_lines.len();
    let hunk = DiffHunk {
        index: 0,
        header: format_header(0, 0, 1, line_count),
        original_range: (0, 0),
        new_range: (1, line_count),
        lines: hunk_lines,
    };
    assert(line_models(hunk.lines@).len() == hunk.lines@.len());
    assert(hunk@ =~= new_file_hunk(content@));
    let mut hunks: Vec<DiffHunk> = Vec::new();
    hunks.push(hunk);
    assert(hunk_models(hunks@) =~= seq![new_file_hunk(content@)]);
    Ok(
        FileHunks {
            path: path.to_owned(),
            original_content: None,
            modified_content: Some(vstd::slice::slice_to_vec(content)),
            hunks,
            is_binary: false,
            change_entry,
        },
    )
}

/// Create hunks for a deleted file (entire file is one "removed" hunk)
pub fn create_deleted_file_hunks(content: &[u8], path: &str, change_entry: ChangeEntry) -> (r:
    Result<FileHunks, DiffParseError>)
    ensures
        content@.contains(0u8) ==> (r matches Ok(fh) && binary_file_hunks(
            fh,
            path@,
            Some(content@),
            None,
            change_entry,
        )),
        !content@.contains(0u8) ==> (r matches Ok(fh) && text_file_hunks(
            fh,
            path@,
            Some(content@),
            None,
            seq![deleted_file_hunk(content@)],
            change_entry,
        )),
{
    if FileHunks::is_binary_content(content) {
        return Ok(
            FileHunks {
                path: path.to_owned(),
                original_content: Some(vstd::slice::slice_to_vec(content)),
                modified_content: None,
                hunks: Vec::new(),
                is_binary: true,
                change_entry,
            },
        );
    }
    let lines = crate::text::text_lines_of(content);
    let hunk_lines = whole_file_hunk_lines(&lines, false);
    let line_count = hunk_lines.len();
    let hunk = DiffHunk {
        index: 0,
        header: format_header(1, line_count, 0, 0),
        original_range: (1, line_count),
        new_range: (0, 0),
        lines: hunk_lines,
    };
    assert(line_models(hunk.lines@).len() == hunk.lines@.len());
    assert(hunk@ =~= deleted_file_hunk(content@));
    let mut hunks: Vec<DiffHunk> = Vec::new();
    hunks.push(hunk);
    assert(hunk_models(hunks@) =~= seq![deleted_file_hunk(content@)]);
    Ok(
        FileHunks {
            path: path.to_owned(),
            original_content: Some(vstd::slice::slice_to_vec(content)),
            modified_content: None,
            hunks,
            is_binary: false,
            change_entry,
        },
    )
}

// ---------------------------------------------------------------------------
// Reading back a formatted header
// ---------------------------------------------------------------------------

proof fn lemma_decimal_plain(n: nat)
    ensures
        crate::text::no_white_space(decimal(n)),
        forall|i: int| 0 <= i < decimal(n).len() ==> decimal(n)[i] != ',' && decimal(n)[i] != '-'
            && decimal(n)[i] != '+',
        decimal(n).len() > 0,
        crate::text::is_digit(decimal(n)[0]),
{
    crate::text::lemma_decimal_parses(n);
}

/// A range written as a sign, the start in decimal and `,count` reads back
/// as `(start, count)`; written without the count it reads back as
/// `(start, 1)`.
pub proof fn law_range_reads_back(sign: char, a: nat, b: nat)
    requires
        sign == '-' || sign == '+',
        a <= usize::MAX,
        b <= usize::MAX,
    ensures
        parse_range_spec(seq![sign] + decimal(a) + seq![','] + decimal(b)) == Some(
            (a as usize, b as usize),
        ),
        parse_range_spec(seq![sign] + decimal(a)) == Some((a as usize, 1usize)),
{
    let da = decimal(a);
    let db = decimal(b);
    let w = seq![sign] + da + seq![','] + db;
    lemma_decimal_plain(a);
    lemma_decimal_plain(b);
    crate::text::lemma_decimal_parses(a);
    crate::text::lemma_decimal_parses(b);
    let r = da + seq![','] + db;
    assert(w.drop_first() =~= r);
    assert(strip_signs(r) == r) by {
        assert(r[0] == da[0]);
    }
    assert(strip_signs(w) == r);
    assert forall|j: int| 0 <= j < da.len() implies r[j] != ',' by {
        assert(r[j] == da[j]);
    }
    lemma_index_of(r, ',', da.len() as int);
    assert(r.take(da.len() as int) =~= da);
    assert(r.skip(da.len() as int + 1) =~= db);
    assert(parse_usize_spec(da) == Some(a as usize));
    assert(parse_usize_spec(db) == Some(b as usize));
    // without the count
    let w1 = seq![sign] + da;
    assert(w1.drop_first() =~= da);
    assert(strip_signs(da) == da);
    assert(strip_signs(w1) == da);
    lemma_index_of(da, ',', da.len() as int);
}

/// A header formatted from its ranges reads back as those ranges.
pub proof fn law_header_reads_back(os: nat, oc: nat, ns: nat, nc: nat)
    requires
        os <= usize::MAX,
        oc <= usize::MAX,
        ns <= usize::MAX,
        nc <= usize::MAX,
    ensures
        parse_hunk_header_spec(header_text(os, oc, ns, nc)) == Ok::<_, DiffParseError>(
            ((os as usize, oc as usize), (ns as usize, nc as usize)),
        ),
{
    let h = header_text(os, oc, ns, nc);
    let w1 = seq!['-'] + decimal(os) + seq![','] + decimal(oc);
    let w2 = seq!['+'] + decimal(ns) + seq![','] + decimal(nc);
    let w3 = seq!['@', '@'];
    lemma_decimal_plain(os);
    lemma_decimal_plain(oc);
    lemma_decimal_plain(ns);
    lemma_decimal_plain(nc);
    let t = w1 + seq![' '] + w2 + seq![' '] + w3;
    assert(h =~= seq!['@', '@', ' '] + t);
    // leading marks
    assert(h.skip(2) =~= seq![' '] + t);
    assert(strip_hunk_marks(h) == strip_hunk_marks(h.skip(2)));
    assert(strip_hunk_marks(h.skip(2)) == h.skip(2)) by {
        assert(h.skip(2)[0] == ' ');
    }
    // surrounding white space
    assert((seq![' '] + t).drop_first() =~= t);
    assert(t[0] == '-');
    assert(crate::text::trim_start_ws(seq![' '] + t) == crate::text::trim_start_ws(t));
    assert(crate::text::trim_start_ws(t) == t);
    assert(t.last() == '@');
    assert(crate::text::trim_end_ws(t) == t);
    assert(trim_ws(strip_hunk_marks(h)) == t);
    // words
    assert(crate::text::no_white_space(w1)) by {
        assert forall|i: int| 0 <= i < w1.len() implies !crate::text::is_white_space(w1[i]) by {
            if i >= 1 && i < 1 + decimal(os).len() {
                assert(w1[i] == decimal(os)[i - 1]);
            } else if i >= 2 + decimal(os).len() {
                assert(w1[i] == decimal(oc)[i - 2 - decimal(os).len()]);
            }
        }
    }
    assert(crate::text::no_white_space(w2)) by {
        assert forall|i: int| 0 <= i < w2.len() implies !crate::text::is_white_space(w2[i]) by {
            if i >= 1 && i < 1 + decimal(ns).len() {
                assert(w2[i] == decimal(ns)[i - 1]);
            } else if i >= 2 + decimal(ns).len() {
                assert(w2[i] == decimal(nc)[i - 2 - decimal(ns).len()]);
            }
        }
    }
    assert(crate::text::no_white_space(w3));
    let e = Seq::<char>::empty();
    crate::text::lemma_scan_words_word(e, w1);
    assert(e + w1 =~= w1);
    assert(crate::text::scan_words(e) == (Seq::<Seq<char>>::empty(), e));
    assert(e + w1 =~= w1);
    let p1 = w1.push(' ');
    crate::text::lemma_scan_words_space(w1, ' ');
    crate::text::lemma_scan_words_word(p1, w2);
    let p2 = (p1 + w2).push(' ');
    crate::text::lemma_scan_words_space(p1 + w2, ' ');
    crate::text::lemma_scan_words_word(p2, w3);
    assert(p2 + w3 =~= t);
    assert(crate::text::scan_words(p1).1 + w2 =~= w2);
    assert(crate::text::scan_words(p2).1 + w3 =~= w3);
    let ws = words_of(t);
    assert(ws =~= seq![w1, w2, w3]);
    law_range_reads_back('-', os, oc);
    law_range_reads_back('+', ns, nc);
}

/// The header of every piece of a split hunk reads back as that piece's ranges.
pub proof fn law_split_headers_read_back(h: HunkModel)
    requires
        crate::hunk::change_regions(h.lines) > 1 ==> crate::hunk::ranges_fit(h),
    ensures
        crate::hunk::split_spec(h) matches Some(ps) ==> forall|k: int|
            0 <= k < ps.len() ==> parse_hunk_header_spec(#[trigger] ps[k].header)
                == Ok::<_, DiffParseError>((ps[k].original_range, ps[k].new_range)),
{
    crate::hunk::law_split_pieces(h);
    if let Some(ps) = crate::hunk::split_spec(h) {
        assert forall|k: int| 0 <= k < ps.len() implies parse_hunk_header_spec(
            #[trigger] ps[k].header,
        ) == Ok::<_, DiffParseError>((ps[k].original_range, ps[k].new_range)) by {
            assert(crate::hunk::consistent_piece(ps[k], k));
            law_header_reads_back(
                ps[k].original_range.0 as nat,
                ps[k].original_range.1 as nat,
                ps[k].new_range.0 as nat,
                ps[k].new_range.1 as nat,
            );
        }
    }
}

} // verus!
