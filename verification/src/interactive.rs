//! Interactive hunk selection: applying a selection of hunks to a file's
//! text, and the decisions of an interactive accept or reject session.
use vstd::prelude::*;
use vstd::utf8::{decode_utf8, encode_utf8, valid_utf8};

use crate::hunk::{
    ChangeEntry, EntryOperation, SetType, change_regions, duplicate_hunks, hunk_models, hunk_ranges_fit, opt_bytes, ranges_fit, split_spec,
    DiffHunk, FileHunks, HunkLine, HunkModel, HunkSelection, LineKind, LineModel,
};
use vstd::pervasive::VecAdditionalExecFns;
use crate::text::{
    chars_of, is_white_space, join_lines, join_with_newlines, lines_of, lossy_text,
    no_carriage_return, push_char, string_views, trim_ws,
};

verus! {

/// Why the content of a partial accept or reject could not be computed.
#[derive(Debug, Clone, Copy, PartialEq, Eq, Structural)]
pub enum ApplyError {
    /// The file has no original content
    NoOriginalContent,
    /// The file has no modified content
    NoModifiedContent,
}

// ---------------------------------------------------------------------------
// Merging hunks into the original lines
// ---------------------------------------------------------------------------

/// The lines written so far and the next line of the original.
#[verifier::ext_equal]
pub struct MergeState {
    pub out: Seq<Seq<char>>,
    pub idx: int,
}

/// Where a hunk starts among the original lines (0-based).
pub open spec fn hunk_start(h: HunkModel) -> int {
    if h.original_range.0 >= 1 {
        h.original_range.0 - 1
    } else {
        0
    }
}

/// Copies the original lines up to `start` (as far as there are lines).
pub open spec fn copy_gap(orig: Seq<Seq<char>>, st: MergeState, start: int) -> MergeState {
    let g = if start < orig.len() {
        start
    } else {
        orig.len() as int
    };
    if st.idx < g {
        MergeState { out: st.out + orig.subrange(st.idx, g), idx: g }
    } else {
        st
    }
}

/// Applies one hunk line: context and added text is written, context and
/// removed lines consume an original line.
pub open spec fn take_line(st: MergeState, l: LineModel) -> MergeState {
    if l.kind == LineKind::Context {
        MergeState { out: st.out.push(l.text), idx: st.idx + 1 }
    } else if l.kind == LineKind::Added {
        MergeState { out: st.out.push(l.text), idx: st.idx }
    } else {
        MergeState { out: st.out, idx: st.idx + 1 }
    }
}

/// Leaves one hunk line out: context and removed lines copy the original
/// line (while there is one); added lines are dropped.
pub open spec fn keep_line(orig: Seq<Seq<char>>, st: MergeState, l: LineModel) -> MergeState {
    if l.kind == LineKind::Added {
        st
    } else if 0 <= st.idx < orig.len() {
        MergeState { out: st.out.push(orig[st.idx]), idx: st.idx + 1 }
    } else {
        st
    }
}

/// Applies every line of a hunk.
pub open spec fn take_lines(ls: Seq<LineModel>, st: MergeState) -> MergeState
    decreases ls.len(),
{
    if ls.len() == 0 {
        st
    } else {
        take_line(take_lines(ls.drop_last(), st), ls.last())
    }
}

/// Leaves every line of a hunk out.
pub open spec fn keep_lines(orig: Seq<Seq<char>>, ls: Seq<LineModel>, st: MergeState) -> MergeState
    decreases ls.len(),
{
    if ls.len() == 0 {
        st
    } else {
        keep_line(orig, keep_lines(orig, ls.drop_last(), st), ls.last())
    }
}

/// Copies the original up to a hunk, then applies the hunk or leaves it out.
pub open spec fn merge_hunk(orig: Seq<Seq<char>>, h: HunkModel, take: bool, st: MergeState) -> MergeState {
    let s1 = copy_gap(orig, st, hunk_start(h));
    if take {
        take_lines(h.lines, s1)
    } else {
        keep_lines(orig, h.lines, s1)
    }
}

/// Goes through the hunks in order; `takes[k]` says whether hunk `k` is applied.
pub open spec fn merge_hunks(orig: Seq<Seq<char>>, hs: Seq<HunkModel>, takes: Seq<bool>) -> MergeState
    decreases hs.len(),
{
    if hs.len() == 0 {
        MergeState { out: seq![], idx: 0 }
    } else {
        merge_hunk(orig, hs.last(), takes[hs.len() - 1], merge_hunks(orig, hs.drop_last(), takes))
    }
}

/// The lines after merging, with the rest of the original appended.
pub open spec fn merged_lines(orig: Seq<Seq<char>>, hs: Seq<HunkModel>, takes: Seq<bool>) -> Seq<Seq<char>> {
    let st = merge_hunks(orig, hs, takes);
    if st.idx < orig.len() {
        st.out + orig.skip(st.idx)
    } else {
        st.out
    }
}

/// Lines joined with `'\n'`, with a final `'\n'` when asked for and the text is
/// not empty.
pub open spec fn finish_text(lines: Seq<Seq<char>>, trailing: bool) -> Seq<char> {
    let j = join_lines(lines);
    if trailing && j.len() > 0 {
        j.push('\n')
    } else {
        j
    }
}

/// Hunk `k` is marked accepted.
pub open spec fn is_selected(sels: Seq<HunkSelection>, k: int) -> bool {
    0 <= k < sels.len() && sels[k] == HunkSelection::Accept
}

/// Apply exactly the selected hunks.
pub open spec fn accept_takes(sels: Seq<HunkSelection>, n: nat) -> Seq<bool> {
    Seq::new(n, |k: int| is_selected(sels, k))
}

/// Apply exactly the hunks that are not selected.
pub open spec fn reject_takes(sels: Seq<HunkSelection>, n: nat) -> Seq<bool> {
    Seq::new(n, |k: int| !is_selected(sels, k))
}

/// Apply every hunk.
pub open spec fn all_takes(n: nat) -> Seq<bool> {
    Seq::new(n, |k: int| true)
}

/// The bytes end with a newline.
pub open spec fn ends_with_newline(b: Seq<u8>) -> bool {
    b.len() > 0 && b.last() == 10u8
}

/// The lines of a file's text.
pub open spec fn text_lines(content: Seq<u8>) -> Seq<Seq<char>> {
    lines_of(lossy_text(content))
}

/// The text of `original` with the hunks `takes` applied and the others left out.
pub open spec fn merged_text(original: Seq<u8>, hs: Seq<HunkModel>, takes: Seq<bool>, trailing: bool) -> Seq<char> {
    finish_text(merged_lines(text_lines(original), hs, takes), trailing)
}

/// The hunks of a file.
pub open spec fn file_hunk_models(fh: FileHunks) -> Seq<HunkModel> {
    hunk_models(fh.hunks@)
}

/// Applies or leaves out one hunk; `idx` is the next original line, kept no
/// larger than the number of original lines.
fn merge_one(
    orig: &Vec<String>,
    h: &DiffHunk,
    take: bool,
    out: Vec<String>,
    idx: usize,
    Ghost(st): Ghost<MergeState>,
) -> (r: (Vec<String>, usize, Ghost<MergeState>))
    requires
        string_views(out@) == st.out,
        0 <= st.idx,
        idx == (if st.idx < orig@.len() {
            st.idx
        } else {
            orig@.len() as int
        }),
    ensures
        r.2@ == merge_hunk(string_views(orig@), h@, take, st),
        string_views(r.0@) == r.2@.out,
        0 <= r.2@.idx,
        r.1 == (if r.2@.idx < orig@.len() {
            r.2@.idx
        } else {
            orig@.len() as int
        }),
{
    let ghost o = string_views(orig@);
    let n = orig.len();
    let mut out = out;
    let mut idx = idx;
    let start = if h.original_range.0 >= 1 {
        h.original_range.0 - 1
    } else {
        0
    };
    let ghost g = if (start as int) < o.len() {
        start as int
    } else {
        o.len() as int
    };
    let ghost s1 = copy_gap(o, st, start as int);
    let ghost idx0 = idx;
    while idx < start && idx < n
        invariant
            n == orig@.len(),
            o == string_views(orig@),
            idx0 <= idx <= n,
            idx0 < n ==> idx0 == st.idx,
            g == (if (start as int) < o.len() {
                start as int
            } else {
                o.len() as int
            }),
            idx <= g || idx == idx0,
            string_views(out@) == st.out + o.subrange(idx0 as int, idx as int),
        decreases n - idx,
    {
        let ghost prev = out@;
        let line = orig[idx].clone();
        assert(line@ == o[idx as int]);
        out.push(line);
        assert(string_views(out@) =~= string_views(prev).push(o[idx as int]));
        assert(o.subrange(idx0 as int, idx + 1) =~= o.subrange(idx0 as int, idx as int).push(
            o[idx as int],
        ));
        idx += 1;
    }
    assert(string_views(out@) == s1.out) by {
        if st.idx < g {
            assert(idx == g);
        } else {
            assert(o.subrange(idx0 as int, idx as int) =~= Seq::<Seq<char>>::empty());
        }
    }
    let ghost mut cur = s1;
    let ls = &h.lines;
    let mut j: usize = 0;
    while j < ls.len()
        invariant
            n == orig@.len(),
            o == string_views(orig@),
            j <= ls@.len(),
            h.lines@ == ls@,
            cur == (if take {
                take_lines(h@.lines.take(j as int), s1)
            } else {
                keep_lines(o, h@.lines.take(j as int), s1)
            }),
            string_views(out@) == cur.out,
            0 <= cur.idx,
            idx == (if cur.idx < n {
                cur.idx
            } else {
                n as int
            }),
        decreases ls@.len() - j,
    {
        assert(h@.lines.take(j + 1).drop_last() =~= h@.lines.take(j as int));
        assert(h@.lines.take(j + 1).last() == ls@[j as int]@);
        let ghost l = ls@[j as int]@;
        if take {
            match &ls[j] {
                HunkLine::Context(c) => {
                    out.push(c.clone());
                    if idx < n {
                        idx += 1;
                    }
                },
                HunkLine::Added(c) => {
                    out.push(c.clone());
                },
                HunkLine::Removed(_) => {
                    if idx < n {
                        idx += 1;
                    }
                },
            }
            proof {
                cur = take_line(cur, l);
            }
        } else {
            match &ls[j] {
                HunkLine::Added(_) => {},
                _ => {
                    if idx < n {
                        out.push(orig[idx].clone());
                        idx += 1;
                    }
                },
            }
            proof {
                cur = keep_line(o, cur, l);
            }
        }
        assert(string_views(out@) =~= cur.out);
        j += 1;
    }
    assert(h@.lines.take(ls@.len() as int) =~= h@.lines);
    (out, idx, Ghost(cur))
}

/// Merges the hunks into the original lines; `takes[k]` says whether hunk
/// `k` is applied.
pub fn merge_hunks_into_lines(orig: &Vec<String>, hunks: &Vec<DiffHunk>, takes: &Vec<bool>) -> (out: Vec<String>)
    requires
        takes@.len() == hunks@.len(),
    ensures
        string_views(out@) == merged_lines(string_views(orig@), hunk_models(hunks@), takes@),
{
    let ghost o = string_views(orig@);
    let ghost hs = hunk_models(hunks@);
    let n = orig.len();
    let mut out: Vec<String> = Vec::new();
    let mut idx: usize = 0;
    let ghost mut st = MergeState { out: seq![], idx: 0 };
    let mut k: usize = 0;
    assert(string_views(out@) =~= st.out);
    while k < hunks.len()
        invariant
            n == orig@.len(),
            o == string_views(orig@),
            hs == hunk_models(hunks@),
            takes@.len() == hunks@.len(),
            k <= hunks@.len(),
            st == merge_hunks(o, hs.take(k as int), takes@),
            string_views(out@) == st.out,
            0 <= st.idx,
            idx == (if st.idx < n {
                st.idx
            } else {
                n as int
            }),
        decreases hunks@.len() - k,
    {
        assert(hs.take(k + 1).drop_last() =~= hs.take(k as int));
        assert(hs.take(k + 1).last() == hunks@[k as int]@);
        let (o2, i2, g2) = merge_one(orig, &hunks[k], takes[k], out, idx, Ghost(st));
        out = o2;
        idx = i2;
        proof {
            st = g2@;
        }
        k += 1;
    }
    assert(hs.take(hunks@.len() as int) =~= hs);
    let ghost before = out@;
    while idx < n
        invariant
            n == orig@.len(),
            o == string_views(orig@),
            idx <= n,
            0 <= st.idx,
            st.idx < n ==> string_views(out@) == st.out + o.subrange(st.idx, idx as int),
            st.idx >= n ==> idx == n && string_views(out@) == st.out,
            st.idx < n ==> st.idx <= idx,
        decreases n - idx,
    {
        let ghost prev = out@;
        let line = orig[idx].clone();
        assert(line@ == o[idx as int]);
        out.push(line);
        assert(string_views(out@) =~= string_views(prev).push(o[idx as int]));
        assert(o.subrange(st.idx, idx + 1) =~= o.subrange(st.idx, idx as int).push(o[idx as int]));
        idx += 1;
    }
    assert(string_views(out@) =~= merged_lines(o, hs, takes@)) by {
        if st.idx < n {
            assert(o.subrange(st.idx, n as int) =~= o.skip(st.idx));
        }
    }
    out
}

/// The bytes of the lines joined with `'\n'`, with a final `'\n'` when asked
/// for and the text is not empty.
pub fn lines_to_bytes(lines: &Vec<String>, trailing: bool) -> (r: Vec<u8>)
    ensures
        r@ == encode_utf8(finish_text(string_views(lines@), trailing)),
{
    let mut s = join_with_newlines(lines);
    if trailing && s.as_str().unicode_len() > 0 {
        push_char(&mut s, '\n');
    }
    let b = s.as_str().as_bytes();
    vstd::slice::slice_to_vec(b)
}

/// Whether the bytes end with a newline.
fn ends_in_newline(b: &Vec<u8>) -> (r: bool)
    ensures
        r == ends_with_newline(b@),
{
    b.len() > 0 && b[b.len() - 1] == 10u8
}

/// Which hunks a selection accepts.
fn selection_takes(sels: &[HunkSelection], n: usize, invert: bool) -> (r: Vec<bool>)
    ensures
        !invert ==> r@ == accept_takes(sels@, n as nat),
        invert ==> r@ == reject_takes(sels@, n as nat),
{
    let mut r: Vec<bool> = Vec::new();
    let mut k: usize = 0;
    while k < n
        invariant
            k <= n,
            r@.len() == k,
            forall|j: int| 0 <= j < k ==> #[trigger] r@[j] == (is_selected(sels@, j) != invert),
        decreases n - k,
    {
        let selected = k < sels.len() && sels[k] == HunkSelection::Accept;
        r.push(selected != invert);
        k += 1;
    }
    assert(!invert ==> r@ =~= accept_takes(sels@, n as nat));
    assert(invert ==> r@ =~= reject_takes(sels@, n as nat));
    r
}

/// What accepting the selected hunks makes of the original: the selected
/// hunks applied, the others left out, with the original's final newline.
pub open spec fn accept_result(fh: FileHunks, sels: Seq<HunkSelection>) -> Result<Seq<u8>, ApplyError> {
    match fh.original_content {
        None => Err(ApplyError::NoOriginalContent),
        Some(o) => Ok(
            encode_utf8(
                merged_text(
                    o@,
                    file_hunk_models(fh),
                    accept_takes(sels, fh.hunks@.len()),
                    ends_with_newline(o@),
                ),
            ),
        ),
    }
}

/// What rejecting the selected hunks leaves: the selected hunks left out, the
/// others applied, with the original's final newline.
pub open spec fn reject_result(fh: FileHunks, sels: Seq<HunkSelection>) -> Result<Seq<u8>, ApplyError> {
    match fh.original_content {
        None => Err(ApplyError::NoOriginalContent),
        Some(o) => Ok(
            encode_utf8(
                merged_text(
                    o@,
                    file_hunk_models(fh),
                    reject_takes(sels, fh.hunks@.len()),
                    ends_with_newline(o@),
                ),
            ),
        ),
    }
}

/// The result as a sequence of bytes.
pub open spec fn bytes_result(r: Result<Vec<u8>, ApplyError>) -> Result<Seq<u8>, ApplyError> {
    match r {
        Ok(v) => Ok(v@),
        Err(e) => Err(e),
    }
}

/// Apply selected hunks to original content for accept
pub fn apply_selected_hunks_for_accept(file_hunks: &FileHunks, selections: &[HunkSelection]) -> (r:
    Result<Vec<u8>, ApplyError>)
    ensures
        bytes_result(r) == accept_result(*file_hunks, selections@),
{
    let original = match &file_hunks.original_content {
        Some(o) => o,
        None => {
            return Err(ApplyError::NoOriginalContent);
        },
    };
    let original_lines = crate::text::text_lines_of(original.as_slice());
    let takes = selection_takes(selections, file_hunks.hunks.len(), false);
    let result_lines = merge_hunks_into_lines(&original_lines, &file_hunks.hunks, &takes);
    Ok(lines_to_bytes(&result_lines, ends_in_newline(original)))
}

/// Apply rejections - keep only non-rejected hunks
pub fn apply_selected_hunks_for_reject(file_hunks: &FileHunks, selections: &[HunkSelection]) -> (r:
    Result<Vec<u8>, ApplyError>)
    ensures
        bytes_result(r) == reject_result(*file_hunks, selections@),
{
    let original = match &file_hunks.original_content {
        Some(o) => o,
        None => {
            return Err(ApplyError::NoOriginalContent);
        },
    };
    let original_lines = crate::text::text_lines_of(original.as_slice());
    let takes = selection_takes(selections, file_hunks.hunks.len(), true);
    let result_lines = merge_hunks_into_lines(&original_lines, &file_hunks.hunks, &takes);
    Ok(lines_to_bytes(&result_lines, ends_in_newline(original)))
}

/// The texts of the added lines among `ls`.
pub open spec fn added_texts(ls: Seq<LineModel>) -> Seq<Seq<char>>
    decreases ls.len(),
{
    if ls.len() == 0 {
        seq![]
    } else if ls.last().kind == LineKind::Added {
        added_texts(ls.drop_last()).push(ls.last().text)
    } else {
        added_texts(ls.drop_last())
    }
}

/// The added lines of the hunks `takes`, hunk after hunk.
pub open spec fn taken_additions(hs: Seq<HunkModel>, takes: Seq<bool>) -> Seq<Seq<char>>
    decreases hs.len(),
{
    if hs.len() == 0 {
        seq![]
    } else if takes[hs.len() - 1] {
        taken_additions(hs.drop_last(), takes) + added_texts(hs.last().lines)
    } else {
        taken_additions(hs.drop_last(), takes)
    }
}

/// What accepting the selected hunks of a new file writes: their added lines,
/// each ended by a newline.
pub open spec fn new_file_result(fh: FileHunks, sels: Seq<HunkSelection>) -> Seq<u8> {
    encode_utf8(
        finish_text(
            taken_additions(file_hunk_models(fh), accept_takes(sels, fh.hunks@.len())),
            true,
        ),
    )
}

/// Apply selected hunks to create content for a new file
pub fn apply_selected_hunks_to_new_file(file_hunks: &FileHunks, selections: &[HunkSelection]) -> (r:
    Result<Vec<u8>, ApplyError>)
    ensures
        bytes_result(r) == Ok::<_, ApplyError>(new_file_result(*file_hunks, selections@)),
{
    let ghost hs = file_hunk_models(*file_hunks);
    let n = file_hunks.hunks.len();
    let takes = selection_takes(selections, n, false);
    let mut result_lines: Vec<String> = Vec::new();
    let mut k: usize = 0;
    while k < n
        invariant
            n == file_hunks.hunks@.len(),
            hs == file_hunk_models(*file_hunks),
            takes@ == accept_takes(selections@, n as nat),
            k <= n,
            string_views(result_lines@) == taken_additions(hs.take(k as int), takes@),
        decreases n - k,
    {
        assert(hs.take(k + 1).drop_last() =~= hs.take(k as int));
        let hunk = &file_hunks.hunks[k];
        assert(hs.take(k + 1).last() == hunk@);
        if takes[k] {
            let ghost base = string_views(result_lines@);
            let mut j: usize = 0;
            while j < hunk.lines.len()
                invariant
                    j <= hunk.lines@.len(),
                    string_views(result_lines@) == base + added_texts(hunk@.lines.take(j as int)),
                decreases hunk.lines@.len() - j,
            {
                assert(hunk@.lines.take(j + 1).drop_last() =~= hunk@.lines.take(j as int));
                assert(hunk@.lines.take(j + 1).last() == hunk.lines@[j as int]@);
                match &hunk.lines[j] {
                    HunkLine::Added(c) => {
                        let ghost prev = result_lines@;
                        result_lines.push(c.clone());
                        assert(string_views(result_lines@) =~= string_views(prev).push(c@));
                        assert(added_texts(hunk@.lines.take(j + 1)) == added_texts(
                            hunk@.lines.take(j as int),
                        ).push(c@));
                        assert(string_views(result_lines@) =~= base + added_texts(
                            hunk@.lines.take(j + 1),
                        ));
                    },
                    _ => {},
                }
                j += 1;
            }
            assert(hunk@.lines.take(hunk.lines@.len() as int) =~= hunk@.lines);
        }
        k += 1;
    }
    assert(hs.take(n as int) =~= hs);
    Ok(lines_to_bytes(&result_lines, true))
}

/// Every selection accepts.
pub open spec fn all_accepted(sels: Seq<HunkSelection>) -> bool {
    forall|i: int| 0 <= i < sels.len() ==> sels[i] == HunkSelection::Accept
}

/// Every selection skips.
pub open spec fn all_skipped(sels: Seq<HunkSelection>) -> bool {
    forall|i: int| 0 <= i < sels.len() ==> sels[i] == HunkSelection::Skip
}

/// What the upper file holds after accepting the selected hunks: nothing when
/// every hunk was accepted, the modified content when none was, and otherwise
/// the original with every hunk applied, with the modified file's final newline.
pub open spec fn remaining_result(fh: FileHunks, sels: Seq<HunkSelection>) -> Result<
    Seq<u8>,
    ApplyError,
> {
    match fh.modified_content {
        None => Err(ApplyError::NoModifiedContent),
        Some(m) => if all_accepted(sels) {
            Ok(seq![])
        } else if all_skipped(sels) {
            Ok(m@)
        } else {
            match fh.original_content {
                None => Err(ApplyError::NoOriginalContent),
                Some(o) => Ok(
                    encode_utf8(
                        merged_text(
                            o@,
                            file_hunk_models(fh),
                            all_takes(fh.hunks@.len()),
                            ends_with_newline(m@),
                        ),
                    ),
                ),
            }
        },
    }
}

/// Whether every selection is `which`.
fn all_equal(sels: &[HunkSelection], which: HunkSelection) -> (r: bool)
    ensures
        which == HunkSelection::Accept ==> r == all_accepted(sels@),
        which == HunkSelection::Skip ==> r == all_skipped(sels@),
{
    let mut i: usize = 0;
    while i < sels.len()
        invariant
            i <= sels@.len(),
            forall|j: int| 0 <= j < i ==> sels@[j] == which,
        decreases sels@.len() - i,
    {
        if sels[i] != which {
            return false;
        }
        i += 1;
    }
    true
}

/// Calculate what content should remain in the upper file after partial accept
pub fn calculate_remaining_for_upper(file_hunks: &FileHunks, selections: &[HunkSelection]) -> (r:
    Result<Vec<u8>, ApplyError>)
    ensures
        bytes_result(r) == remaining_result(*file_hunks, selections@),
{
    let modified = match &file_hunks.modified_content {
        Some(m) => m,
        None => {
            return Err(ApplyError::NoModifiedContent);
        },
    };
    // If all hunks were accepted, nothing remains
    if all_equal(selections, HunkSelection::Accept) {
        return Ok(Vec::new());
    }
    // If no hunks were accepted, return the original modified content
    if all_equal(selections, HunkSelection::Skip) {
        return Ok(vstd::slice::slice_to_vec(modified.as_slice()));
    }
    let original = match &file_hunks.original_content {
        Some(o) => o,
        None => {
            return Err(ApplyError::NoOriginalContent);
        },
    };
    // The upper file keeps every change, accepted or not
    let original_lines = crate::text::text_lines_of(original.as_slice());
    let n = file_hunks.hunks.len();
    let mut takes: Vec<bool> = Vec::new();
    let mut k: usize = 0;
    while k < n
        invariant
            k <= n,
            takes@.len() == k,
            forall|j: int| 0 <= j < k ==> #[trigger] takes@[j],
        decreases n - k,
    {
        takes.push(true);
        k += 1;
    }
    assert(takes@ =~= all_takes(n as nat));
    let result_lines = merge_hunks_into_lines(&original_lines, &file_hunks.hunks, &takes);
    Ok(lines_to_bytes(&result_lines, ends_in_newline(modified)))
}

// ---------------------------------------------------------------------------
// Laws of applying hunks
// ---------------------------------------------------------------------------

/// The selection that accepts exactly the hunks that `sels` does not.
pub open spec fn complement(sels: Seq<HunkSelection>, n: nat) -> Seq<HunkSelection> {
    Seq::new(
        n,
        |k: int|
            if is_selected(sels, k) {
                HunkSelection::Skip
            } else {
                HunkSelection::Accept
            },
    )
}

/// Applying the lines of a hunk writes the text of its context and added
/// lines, in order, and no removed line; it moves past one original line for
/// each context and removed line.
pub proof fn law_take_lines_writes_new_side(ls: Seq<LineModel>, st: MergeState)
    ensures
        take_lines(ls, st).out == st.out + ls.filter(|l: LineModel| l.kind != LineKind::Removed).map_values(
            |l: LineModel| l.text,
        ),
        take_lines(ls, st).idx == st.idx + ls.filter(|l: LineModel| l.kind != LineKind::Added).len(),
    decreases ls.len(),
{
    reveal(Seq::filter);
    let nr = |l: LineModel| l.kind != LineKind::Removed;
    let na = |l: LineModel| l.kind != LineKind::Added;
    let tx = |l: LineModel| l.text;
    if ls.len() == 0 {
        assert(ls.filter(nr) =~= Seq::<LineModel>::empty());
        assert(ls.filter(nr).map_values(tx) =~= Seq::<Seq<char>>::empty());
        assert(st.out + Seq::<Seq<char>>::empty() =~= st.out);
    } else {
        let p = ls.drop_last();
        law_take_lines_writes_new_side(p, st);
        let l = ls.last();
        assert(ls.filter(nr) == (if nr(l) {
            p.filter(nr).push(l)
        } else {
            p.filter(nr)
        }));
        assert(ls.filter(na) == (if na(l) {
            p.filter(na).push(l)
        } else {
            p.filter(na)
        }));
        if nr(l) {
            assert(p.filter(nr).push(l).map_values(tx) =~= p.filter(nr).map_values(tx).push(l.text));
            assert(st.out + p.filter(nr).map_values(tx).push(l.text) =~= (st.out + p.filter(
                nr,
            ).map_values(tx)).push(l.text));
        }
    }
}

/// Leaving the lines of a hunk out copies the original lines it covers, one
/// for each context and removed line, as far as the original reaches.
pub proof fn law_keep_lines_copies_original(orig: Seq<Seq<char>>, ls: Seq<LineModel>, st: MergeState)
    requires
        0 <= st.idx,
        st.idx + ls.filter(|l: LineModel| l.kind != LineKind::Added).len() <= orig.len(),
    ensures
        keep_lines(orig, ls, st) == (MergeState {
            out: st.out + orig.subrange(
                st.idx,
                st.idx + ls.filter(|l: LineModel| l.kind != LineKind::Added).len(),
            ),
            idx: st.idx + ls.filter(|l: LineModel| l.kind != LineKind::Added).len(),
        }),
    decreases ls.len(),
{
    reveal(Seq::filter);
    let na = |l: LineModel| l.kind != LineKind::Added;
    if ls.len() == 0 {
        assert(ls.filter(na) =~= Seq::<LineModel>::empty());
        assert(st.out + orig.subrange(st.idx, st.idx) =~= st.out);
    } else {
        let p = ls.drop_last();
        let l = ls.last();
        assert(ls.filter(na) == (if na(l) {
            p.filter(na).push(l)
        } else {
            p.filter(na)
        }));
        law_keep_lines_copies_original(orig, p, st);
        let e = st.idx + p.filter(na).len();
        if na(l) {
            assert(st.out + orig.subrange(st.idx, e + 1) =~= (st.out + orig.subrange(st.idx, e)).push(
                orig[e],
            ));
        }
    }
}

/// Merging one hunk that starts at or after the next original line copies the
/// original lines up to the hunk's start, then writes the hunk's context and
/// added lines when it is applied, or copies the original lines it covers
/// when it is left out.
pub proof fn law_merge_hunk_places_the_hunk(orig: Seq<Seq<char>>, h: HunkModel, st: MergeState)
    requires
        0 <= st.idx <= hunk_start(h) <= orig.len(),
    ensures
        ({
            let start = hunk_start(h);
            let covered = h.lines.filter(|l: LineModel| l.kind != LineKind::Added).len();
            &&& merge_hunk(orig, h, true, st) == (MergeState {
                out: st.out + orig.subrange(st.idx, start) + h.lines.filter(
                    |l: LineModel| l.kind != LineKind::Removed,
                ).map_values(|l: LineModel| l.text),
                idx: start + covered,
            })
            &&& start + covered <= orig.len() ==> merge_hunk(orig, h, false, st) == (MergeState {
                out: st.out + orig.subrange(st.idx, start + covered),
                idx: start + covered,
            })
        }),
{
    let start = hunk_start(h);
    let s1 = copy_gap(orig, st, start);
    assert(s1.out =~= st.out + orig.subrange(st.idx, start));
    assert(s1.idx == start);
    law_take_lines_writes_new_side(h.lines, s1);
    let covered = h.lines.filter(|l: LineModel| l.kind != LineKind::Added).len();
    if start + covered <= orig.len() {
        law_keep_lines_copies_original(orig, h.lines, s1);
        assert(st.out + orig.subrange(st.idx, start) + orig.subrange(start, start + covered)
            =~= st.out + orig.subrange(st.idx, start + covered));
    }
}

/// Merging a single hunk into the original: applied, the result is the
/// original up to the hunk, the hunk's context and added lines, then the
/// original after the lines the hunk covers; left out, the result is the
/// original.
pub proof fn law_single_hunk_merge(orig: Seq<Seq<char>>, h: HunkModel)
    requires
        hunk_start(h) + h.lines.filter(|l: LineModel| l.kind != LineKind::Added).len() <= orig.len(),
    ensures
        ({
            let start = hunk_start(h);
            let covered = h.lines.filter(|l: LineModel| l.kind != LineKind::Added).len();
            &&& merged_lines(orig, seq![h], seq![true]) == orig.take(start) + h.lines.filter(
                |l: LineModel| l.kind != LineKind::Removed,
            ).map_values(|l: LineModel| l.text) + orig.skip(start + covered)
            &&& merged_lines(orig, seq![h], seq![false]) == orig
        }),
{
    let start = hunk_start(h);
    let covered = h.lines.filter(|l: LineModel| l.kind != LineKind::Added).len();
    let st0 = MergeState { out: seq![], idx: 0 };
    let one = seq![h];
    assert(one.drop_last() =~= Seq::<HunkModel>::empty());
    assert(one.last() == h);
    assert(merge_hunks(orig, one.drop_last(), seq![true]) == st0);
    assert(merge_hunks(orig, one.drop_last(), seq![false]) == st0);
    law_merge_hunk_places_the_hunk(orig, h, st0);
    assert(merge_hunks(orig, one, seq![true]) == merge_hunk(orig, h, true, st0));
    assert(merge_hunks(orig, one, seq![false]) == merge_hunk(orig, h, false, st0));
    assert(Seq::<Seq<char>>::empty() + orig.subrange(0, start) =~= orig.take(start));
    assert(Seq::<Seq<char>>::empty() + orig.subrange(0, start + covered) =~= orig.take(
        start + covered,
    ));
    if start + covered == orig.len() {
        assert(orig.skip(start + covered) =~= Seq::<Seq<char>>::empty());
        assert(orig.take(start + covered) =~= orig);
    } else {
        assert(orig.take(start + covered) + orig.skip(start + covered) =~= orig);
    }
    let nt = h.lines.filter(|l: LineModel| l.kind != LineKind::Removed).map_values(
        |l: LineModel| l.text,
    );
    assert(orig.take(start) + nt + orig.skip(start + covered) =~= merged_lines(orig, one, seq![true]));
}

/// Hunks at the same places with the same lines (whatever their numbers,
/// headers and new-side ranges).
pub open spec fn same_hunk_places(a: Seq<HunkModel>, b: Seq<HunkModel>) -> bool {
    &&& a.len() == b.len()
    &&& forall|k: int|
        0 <= k < a.len() ==> (#[trigger] a[k]).lines == b[k].lines && a[k].original_range.0
            == b[k].original_range.0
}

/// Which hunks are applied goes by their positions: merging depends only on
/// the hunks' places and lines and on the choices `takes[0 .. hs.len()]`, and
/// not on the numbers the hunks carry.
pub proof fn law_merge_by_position(
    orig: Seq<Seq<char>>,
    a: Seq<HunkModel>,
    b: Seq<HunkModel>,
    ta: Seq<bool>,
    tb: Seq<bool>,
)
    requires
        same_hunk_places(a, b),
        forall|k: int| 0 <= k < a.len() ==> ta[k] == tb[k],
    ensures
        merge_hunks(orig, a, ta) == merge_hunks(orig, b, tb),
    decreases a.len(),
{
    if a.len() > 0 {
        let k = a.len() - 1;
        assert(a[k].lines == b[k].lines && a[k].original_range.0 == b[k].original_range.0);
        assert(ta[k] == tb[k]);
        assert forall|j: int| 0 <= j < a.drop_last().len() implies (#[trigger] a.drop_last()[j]).lines
            == b.drop_last()[j].lines && a.drop_last()[j].original_range.0
            == b.drop_last()[j].original_range.0 by {
            assert(a[j].lines == b[j].lines && a[j].original_range.0 == b[j].original_range.0);
        }
        law_merge_by_position(orig, a.drop_last(), b.drop_last(), ta, tb);
    }
}

/// Applying hunk `k` or leaving it out follows the selection at position `k`:
/// accepting or rejecting gives the same content for two files with the same
/// original and hunks at the same places with the same lines, whatever
/// numbers the hunks carry.
pub proof fn law_selection_goes_by_position(fh1: FileHunks, fh2: FileHunks, sels: Seq<HunkSelection>)
    requires
        opt_bytes(fh1.original_content) == opt_bytes(fh2.original_content),
        same_hunk_places(file_hunk_models(fh1), file_hunk_models(fh2)),
    ensures
        accept_result(fh1, sels) == accept_result(fh2, sels),
        reject_result(fh1, sels) == reject_result(fh2, sels),
{
    let n = fh1.hunks@.len();
    assert(file_hunk_models(fh1).len() == n);
    assert(fh2.hunks@.len() == n);
    if let Some(o) = fh1.original_content {
        let ol = text_lines(o@);
        law_merge_by_position(ol, file_hunk_models(fh1), file_hunk_models(fh2), accept_takes(sels, n), accept_takes(sels, n));
        law_merge_by_position(ol, file_hunk_models(fh1), file_hunk_models(fh2), reject_takes(sels, n), reject_takes(sels, n));
    }
}

/// Rejecting the selected hunks leaves the same content as accepting all the
/// other hunks.
pub proof fn law_reject_is_accept_of_complement(fh: FileHunks, sels: Seq<HunkSelection>)
    ensures
        reject_result(fh, sels) == accept_result(fh, complement(sels, fh.hunks@.len())),
{
    let n = fh.hunks@.len();
    assert(reject_takes(sels, n) =~= accept_takes(complement(sels, n), n));
}

proof fn lemma_keep_lines(orig: Seq<Seq<char>>, ls: Seq<LineModel>, st: MergeState)
    requires
        0 <= st.idx <= orig.len(),
        st.out == orig.take(st.idx),
    ensures
        0 <= keep_lines(orig, ls, st).idx <= orig.len(),
        keep_lines(orig, ls, st).out == orig.take(keep_lines(orig, ls, st).idx),
    decreases ls.len(),
{
    if ls.len() > 0 {
        lemma_keep_lines(orig, ls.drop_last(), st);
        let s0 = keep_lines(orig, ls.drop_last(), st);
        if 0 <= s0.idx < orig.len() {
            assert(orig.take(s0.idx + 1) =~= orig.take(s0.idx).push(orig[s0.idx]));
        }
    }
}

proof fn lemma_merge_keeps(orig: Seq<Seq<char>>, hs: Seq<HunkModel>, takes: Seq<bool>)
    requires
        forall|k: int| 0 <= k < hs.len() ==> !#[trigger] takes[k],
    ensures
        0 <= merge_hunks(orig, hs, takes).idx <= orig.len(),
        merge_hunks(orig, hs, takes).out == orig.take(merge_hunks(orig, hs, takes).idx),
    decreases hs.len(),
{
    if hs.len() == 0 {
        assert(orig.take(0) =~= Seq::<Seq<char>>::empty());
    } else {
        let p = hs.drop_last();
        assert forall|k: int| 0 <= k < p.len() implies !#[trigger] takes[k] by {
            assert(!takes[k]);
        }
        lemma_merge_keeps(orig, p, takes);
        let st = merge_hunks(orig, p, takes);
        let s1 = copy_gap(orig, st, hunk_start(hs.last()));
        if st.idx < (if hunk_start(hs.last()) < orig.len() {
            hunk_start(hs.last())
        } else {
            orig.len() as int
        }) {
            assert(orig.take(st.idx) + orig.subrange(st.idx, s1.idx) =~= orig.take(s1.idx));
        }
        assert(!takes[hs.len() - 1]);
        lemma_keep_lines(orig, hs.last().lines, s1);
    }
}

/// Accepting no hunk reproduces the lines of the original: the result is the
/// original's lines joined again, with its final newline.
pub proof fn law_accept_nothing_keeps_original(fh: FileHunks, sels: Seq<HunkSelection>)
    requires
        fh.original_content is Some,
        forall|k: int| 0 <= k < fh.hunks@.len() ==> !is_selected(sels, k),
    ensures
        accept_result(fh, sels) == Ok::<_, ApplyError>(
            encode_utf8(
                finish_text(
                    text_lines(fh.original_content.unwrap()@),
                    ends_with_newline(fh.original_content.unwrap()@),
                ),
            ),
        ),
{
    let o = text_lines(fh.original_content.unwrap()@);
    let hs = file_hunk_models(fh);
    let takes = accept_takes(sels, fh.hunks@.len());
    assert forall|k: int| 0 <= k < hs.len() implies !#[trigger] takes[k] by {
        assert(!is_selected(sels, k));
    }
    lemma_merge_keeps(o, hs, takes);
    let st = merge_hunks(o, hs, takes);
    assert(merged_lines(o, hs, takes) =~= o);
}

/// Rejecting every hunk reproduces the lines of the original.
pub proof fn law_reject_everything_keeps_original(fh: FileHunks, sels: Seq<HunkSelection>)
    requires
        fh.original_content is Some,
        forall|k: int| 0 <= k < fh.hunks@.len() ==> is_selected(sels, k),
    ensures
        reject_result(fh, sels) == Ok::<_, ApplyError>(
            encode_utf8(
                finish_text(
                    text_lines(fh.original_content.unwrap()@),
                    ends_with_newline(fh.original_content.unwrap()@),
                ),
            ),
        ),
{
    law_reject_is_accept_of_complement(fh, sels);
    let c = complement(sels, fh.hunks@.len());
    assert forall|k: int| 0 <= k < fh.hunks@.len() implies !is_selected(c, k) by {
        assert(is_selected(sels, k));
    }
    law_accept_nothing_keeps_original(fh, c);
}

/// After a partial accept the upper file holds every change, accepted or
/// not: its content does not depend on which hunks were accepted.
pub proof fn law_partial_accept_keeps_all_changes(
    fh: FileHunks,
    s1: Seq<HunkSelection>,
    s2: Seq<HunkSelection>,
)
    requires
        !all_accepted(s1),
        !all_skipped(s1),
        !all_accepted(s2),
        !all_skipped(s2),
    ensures
        remaining_result(fh, s1) == remaining_result(fh, s2),
{
}

proof fn lemma_added_texts_whole(ls: Seq<Seq<char>>)
    ensures
        added_texts(crate::diff_parser::whole_file_lines(ls, LineKind::Added)) == ls,
    decreases ls.len(),
{
    if ls.len() > 0 {
        lemma_added_texts_whole(ls.drop_last());
        assert(crate::diff_parser::whole_file_lines(ls, LineKind::Added).drop_last()
            =~= crate::diff_parser::whole_file_lines(ls.drop_last(), LineKind::Added));
        assert(ls.drop_last().push(ls.last()) =~= ls);
    }
}

/// Accepting the single hunk of a new file writes every line of the file,
/// each ended by a newline.
pub proof fn law_accept_new_file(content: Seq<u8>)
    ensures
        taken_additions(seq![crate::diff_parser::new_file_hunk(content)], seq![true])
            == text_lines(content),
{
    let h = crate::diff_parser::new_file_hunk(content);
    lemma_added_texts_whole(text_lines(content));
    let one = seq![h];
    assert(one.drop_last() =~= Seq::<HunkModel>::empty());
    assert(one.last() == h);
    assert(taken_additions(one.drop_last(), seq![true]) == Seq::<Seq<char>>::empty());
    assert(taken_additions(one, seq![true]) == taken_additions(one.drop_last(), seq![true])
        + added_texts(h.lines));
    assert(Seq::<Seq<char>>::empty() + added_texts(h.lines) =~= added_texts(h.lines));
    assert(h.lines == crate::diff_parser::whole_file_lines(text_lines(content), LineKind::Added));
}

/// Accepting the one hunk of a new file whose bytes are UTF-8 text with no
/// carriage return, empty or ending in a newline and not a lone newline,
/// writes back exactly those bytes; skipping it writes nothing.
pub proof fn law_new_file_round_trip(content: Seq<u8>, fh: FileHunks)
    requires
        valid_utf8(content),
        no_carriage_return(decode_utf8(content)),
        decode_utf8(content).len() == 0 || decode_utf8(content).last() == '\n',
        decode_utf8(content) != seq!['\n'],
        fh.hunks@.len() == 1,
        fh.hunks@[0]@.lines == crate::diff_parser::whole_file_lines(
            lines_of(decode_utf8(content)),
            LineKind::Added,
        ),
    ensures
        new_file_result(fh, seq![HunkSelection::Accept]) == content,
        new_file_result(fh, seq![HunkSelection::Skip]) == Seq::<u8>::empty(),
{
    let t = decode_utf8(content);
    let ls = lines_of(t);
    let hs = file_hunk_models(fh);
    assert(hs =~= seq![fh.hunks@[0]@]);
    lemma_added_texts_whole(ls);
    let yes = accept_takes(seq![HunkSelection::Accept], 1);
    let no = accept_takes(seq![HunkSelection::Skip], 1);
    assert(yes =~= seq![true]);
    assert(no =~= seq![false]);
    assert(hs.drop_last() =~= Seq::<HunkModel>::empty());
    assert(hs.last() == fh.hunks@[0]@);
    assert(taken_additions(hs.drop_last(), yes) == Seq::<Seq<char>>::empty());
    assert(taken_additions(hs.drop_last(), no) == Seq::<Seq<char>>::empty());
    assert(taken_additions(hs, yes) == taken_additions(hs.drop_last(), yes) + added_texts(
        hs.last().lines,
    ));
    assert(taken_additions(hs, yes) =~= ls);
    assert(taken_additions(hs, no) == taken_additions(hs.drop_last(), no));
    crate::text::law_lines_round_trip(t);
    assert(finish_text(ls, true) == t);
    vstd::utf8::decode_utf8_encode_utf8(content);
    assert(join_lines(Seq::<Seq<char>>::empty()) =~= Seq::<char>::empty());
    assert(encode_utf8(Seq::<char>::empty()) =~= Seq::<u8>::empty());
}

// ---------------------------------------------------------------------------
// Commands
// ---------------------------------------------------------------------------

/// Commands available during interactive mode
#[derive(Debug, Clone, Copy, PartialEq, Eq, Structural)]
pub enum InteractiveCommand {
    /// y - accept/reject this hunk
    Yes,
    /// n - skip this hunk
    No,
    /// q - quit (apply selections so far)
    Quit,
    /// a - accept/reject all remaining hunks in file
    All,
    /// d - done with file, skip remaining hunks
    Done,
    /// s - split hunk (if possible)
    Split,
    /// ? - show help
    Help,
    /// j - skip to next file
    NextFile,
    /// k - go back to previous file
    PrevFile,
}

/// The command that a key stands for, upper or lower case alike.
pub open spec fn command_of(c: char) -> Option<InteractiveCommand> {
    if c == 'y' || c == 'Y' {
        Some(InteractiveCommand::Yes)
    } else if c == 'n' || c == 'N' {
        Some(InteractiveCommand::No)
    } else if c == 'q' || c == 'Q' {
        Some(InteractiveCommand::Quit)
    } else if c == 'a' || c == 'A' {
        Some(InteractiveCommand::All)
    } else if c == 'd' || c == 'D' {
        Some(InteractiveCommand::Done)
    } else if c == 's' || c == 'S' {
        Some(InteractiveCommand::Split)
    } else if c == '?' || c == 'h' || c == 'H' {
        Some(InteractiveCommand::Help)
    } else if c == 'j' || c == 'J' {
        Some(InteractiveCommand::NextFile)
    } else if c == 'k' || c == 'K' {
        Some(InteractiveCommand::PrevFile)
    } else {
        None
    }
}

impl InteractiveCommand {
    /// The command a key stands for.
    pub fn from_char(c: char) -> (r: Option<InteractiveCommand>)
        ensures
            r == command_of(c),
    {
        match c {
            'y' | 'Y' => Some(InteractiveCommand::Yes),
            'n' | 'N' => Some(InteractiveCommand::No),
            'q' | 'Q' => Some(InteractiveCommand::Quit),
            'a' | 'A' => Some(InteractiveCommand::All),
            'd' | 'D' => Some(InteractiveCommand::Done),
            's' | 'S' => Some(InteractiveCommand::Split),
            '?' | 'h' | 'H' => Some(InteractiveCommand::Help),
            'j' | 'J' => Some(InteractiveCommand::NextFile),
            'k' | 'K' => Some(InteractiveCommand::PrevFile),
            _ => None,
        }
    }
}

/// The upper-case form of an ASCII lower-case letter.
pub open spec fn ascii_upper(c: char) -> char {
    if 97 <= (c as u32) <= 122 {
        ((c as u32) - 32) as char
    } else {
        c
    }
}

/// Commands do not depend on the case of their key.
pub proof fn law_commands_ignore_case(c: char)
    ensures
        command_of(ascii_upper(c)) == command_of(c),
{
}

/// The command typed on a line of input: the first character after leading
/// white space; none for a blank line or an unknown key.
pub open spec fn command_of_input(input: Seq<char>) -> Option<InteractiveCommand> {
    let t = trim_ws(input);
    if t.len() == 0 {
        None
    } else {
        command_of(t[0])
    }
}

proof fn lemma_trim_first(s: Seq<char>)
    ensures
        crate::text::trim_start_ws(s).len() == 0 ==> trim_ws(s).len() == 0,
        crate::text::trim_start_ws(s).len() > 0 ==> trim_ws(s).len() > 0 && trim_ws(s)[0]
            == crate::text::trim_start_ws(s)[0],
{
    lemma_trim_start_nonws(s);
    lemma_trim_end_keeps_first(crate::text::trim_start_ws(s));
}

proof fn lemma_trim_end_keeps_first(s: Seq<char>)
    requires
        s.len() > 0 ==> !is_white_space(s[0]),
    ensures
        s.len() == 0 ==> crate::text::trim_end_ws(s).len() == 0,
        s.len() > 0 ==> crate::text::trim_end_ws(s).len() > 0 && crate::text::trim_end_ws(s)[0]
            == s[0],
    decreases s.len(),
{
    if s.len() > 1 {
        lemma_trim_end_keeps_first(s.drop_last());
    }
}

proof fn lemma_trim_start_nonws(s: Seq<char>)
    ensures
        crate::text::trim_start_ws(s).len() > 0 ==> !is_white_space(crate::text::trim_start_ws(s)[0]),
    decreases s.len(),
{
    if s.len() > 0 && is_white_space(s[0]) {
        lemma_trim_start_nonws(s.drop_first());
    }
}

/// Reads a command from a line of input.
pub fn parse_command(input: &str) -> (r: Option<InteractiveCommand>)
    ensures
        r == command_of_input(input@),
{
    let v = chars_of(input);
    let n = v.len();
    assert(v@.subrange(0, n as int) =~= v@);
    let start = crate::text::skip_leading_ws(&v, 0, n);
    proof {
        lemma_trim_start_nonws(v@);
        lemma_trim_first(v@);
    }
    if start == n {
        assert(crate::text::trim_start_ws(v@) =~= Seq::<char>::empty());
        None
    } else {
        assert(crate::text::trim_start_ws(v@)[0] == v@[start as int]);
        InteractiveCommand::from_char(v[start])
    }
}

// ---------------------------------------------------------------------------
// The interactive session
// ---------------------------------------------------------------------------

/// What the session has to tell besides its next prompt.
#[derive(Debug, Clone, Copy, PartialEq, Eq, Structural)]
pub enum SessionNotice {
    /// Nothing to tell
    Nothing,
    /// Show the help
    Help,
    /// The hunk cannot be split
    CannotSplit,
    /// The command was not understood
    InvalidCommand,
}

/// The state of an interactive session: the file and hunk at hand, the
/// hunks of every file (split as asked), and the selections so far.
pub struct Session {
    /// The file at hand
    pub file_idx: usize,
    /// The hunk at hand within the file
    pub hunk_idx: usize,
    /// The hunks of every file, with the splits made so far
    pub hunks: Vec<Vec<DiffHunk>>,
    /// The selection of every hunk of every file
    pub selections: Vec<Vec<HunkSelection>>,
    /// The user quit before the last file
    pub quit_early: bool,
    /// The session is over
    pub finished: bool,
}

/// A session as plain values.
#[verifier::ext_equal]
pub struct SessionModel {
    pub file_idx: int,
    pub hunk_idx: int,
    pub hunks: Seq<Seq<HunkModel>>,
    pub selections: Seq<Seq<HunkSelection>>,
    pub quit_early: bool,
    pub finished: bool,
}

/// The views of the selections of every file.
pub open spec fn selection_views(s: Seq<Vec<HunkSelection>>) -> Seq<Seq<HunkSelection>> {
    Seq::new(s.len(), |i: int| s[i]@)
}

/// The models of the hunks of every file.
pub open spec fn hunk_lists(s: Seq<Vec<DiffHunk>>) -> Seq<Seq<HunkModel>> {
    Seq::new(s.len(), |i: int| hunk_models(s[i]@))
}

impl View for Session {
    type V = SessionModel;

    open spec fn view(&self) -> SessionModel {
        SessionModel {
            file_idx: self.file_idx as int,
            hunk_idx: self.hunk_idx as int,
            hunks: hunk_lists(self.hunks@),
            selections: selection_views(self.selections@),
            quit_early: self.quit_early,
            finished: self.finished,
        }
    }
}

/// `n` skipped hunks.
pub open spec fn skips(n: nat) -> Seq<HunkSelection> {
    Seq::new(n, |j: int| HunkSelection::Skip)
}

/// Every file starts with all its hunks (at least one entry) skipped.
pub open spec fn initial_selections(files: Seq<FileHunks>) -> Seq<Seq<HunkSelection>> {
    Seq::new(
        files.len(),
        |i: int|
            skips(
                if files[i].hunks@.len() > 1 {
                    files[i].hunks@.len()
                } else {
                    1
                },
            ),
    )
}

/// `sel` padded with skips to at least `n` entries.
pub open spec fn extend_to(sel: Seq<HunkSelection>, n: int) -> Seq<HunkSelection> {
    if sel.len() >= n {
        sel
    } else {
        sel + skips((n - sel.len()) as nat)
    }
}

/// `sel` with entry `i` accepted (padded with skips as needed).
pub open spec fn mark(sel: Seq<HunkSelection>, i: int) -> Seq<HunkSelection> {
    extend_to(sel, i + 1).update(i, HunkSelection::Accept)
}

/// `sel` with entries `from..to` accepted.
pub open spec fn mark_range(sel: Seq<HunkSelection>, from: int, to: int) -> Seq<HunkSelection>
    decreases to - from,
{
    if from >= to {
        sel
    } else {
        mark_range(mark(sel, from), from + 1, to)
    }
}

/// The hunks of every file as the session starts.
pub open spec fn initial_hunks(files: Seq<FileHunks>) -> Seq<Seq<HunkModel>> {
    Seq::new(files.len(), |i: int| hunk_models(files[i].hunks@))
}

/// The hunks `hs` with hunk `h` replaced by the pieces `ps`.
pub open spec fn spliced(hs: Seq<HunkModel>, h: int, ps: Seq<HunkModel>) -> Seq<HunkModel> {
    hs.take(h) + ps + hs.skip(h + 1)
}

/// The selections `sel` with entry `h` given to each of `n` pieces.
pub open spec fn spread(sel: Seq<HunkSelection>, h: int, n: nat) -> Seq<HunkSelection> {
    sel.take(h) + Seq::new(n, |j: int| sel[h]) + sel.skip(h + 1)
}

/// Entering file `m.file_idx`: past the last file the session is over; a
/// binary file is prompted as a whole; a text file is prompted from its
/// first hunk, and a text file without hunks is passed over.
pub open spec fn enter_file(files: Seq<FileHunks>, m: SessionModel) -> SessionModel
    decreases files.len() - m.file_idx,
{
    if !(0 <= m.file_idx < files.len()) {
        SessionModel { finished: true, ..m }
    } else if !files[m.file_idx].is_binary && files[m.file_idx].hunks@.len() == 0 {
        enter_file(files, SessionModel { file_idx: m.file_idx + 1, ..m })
    } else {
        SessionModel { hunk_idx: 0, ..m }
    }
}

/// Moving on to the next file.
pub open spec fn next_file(files: Seq<FileHunks>, m: SessionModel) -> SessionModel {
    enter_file(files, SessionModel { file_idx: m.file_idx + 1, ..m })
}

/// Moving on to the next hunk, or to the next file after the last hunk.
pub open spec fn after_hunk(files: Seq<FileHunks>, m: SessionModel) -> SessionModel {
    if m.hunk_idx < m.hunks[m.file_idx].len() {
        m
    } else {
        next_file(files, m)
    }
}

/// The session at the start.
pub open spec fn session_start(files: Seq<FileHunks>) -> SessionModel {
    enter_file(
        files,
        SessionModel {
            file_idx: 0,
            hunk_idx: 0,
            hunks: initial_hunks(files),
            selections: initial_selections(files),
            quit_early: false,
            finished: false,
        },
    )
}

/// The hunk at hand can be split (and splitting it stays within `usize`).
pub open spec fn splittable(h: HunkModel) -> bool {
    change_regions(h.lines) > 1 && ranges_fit(h) && split_spec(h) is Some
}

/// The previous file, or the first.
pub open spec fn previous(f: int) -> int {
    if f > 0 {
        f - 1
    } else {
        0
    }
}

/// What a command does to the session at a binary file.
pub open spec fn binary_step(files: Seq<FileHunks>, m: SessionModel, cmd: Option<InteractiveCommand>) -> (SessionModel, SessionNotice) {
    let f = m.file_idx;
    match cmd {
        Some(InteractiveCommand::Yes) => (
            next_file(
                files,
                SessionModel {
                    selections: m.selections.update(
                        f,
                        m.selections[f].update(0, HunkSelection::Accept),
                    ),
                    ..m
                },
            ),
            SessionNotice::Nothing,
        ),
        Some(InteractiveCommand::No) => (next_file(files, m), SessionNotice::Nothing),
        Some(InteractiveCommand::NextFile) => (next_file(files, m), SessionNotice::Nothing),
        Some(InteractiveCommand::Quit) => (
            SessionModel { quit_early: true, finished: true, ..m },
            SessionNotice::Nothing,
        ),
        Some(InteractiveCommand::PrevFile) => (
            enter_file(files, SessionModel { file_idx: previous(f), ..m }),
            SessionNotice::Nothing,
        ),
        Some(InteractiveCommand::Help) => (m, SessionNotice::Help),
        _ => (m, SessionNotice::Nothing),
    }
}

/// What a command does to the session at a hunk of a text file.
pub open spec fn hunk_step(files: Seq<FileHunks>, m: SessionModel, cmd: Option<InteractiveCommand>) -> (SessionModel, SessionNotice) {
    let f = m.file_idx;
    let h = m.hunk_idx;
    let sel = m.selections[f];
    let hs = m.hunks[f];
    match cmd {
        Some(InteractiveCommand::Yes) => (
            after_hunk(
                files,
                SessionModel {
                    selections: m.selections.update(f, mark(sel, h)),
                    hunk_idx: h + 1,
                    ..m
                },
            ),
            SessionNotice::Nothing,
        ),
        Some(InteractiveCommand::No) => (
            after_hunk(files, SessionModel { hunk_idx: h + 1, ..m }),
            SessionNotice::Nothing,
        ),
        Some(InteractiveCommand::Quit) => (
            SessionModel { quit_early: true, finished: true, ..m },
            SessionNotice::Nothing,
        ),
        Some(InteractiveCommand::All) => (
            next_file(
                files,
                SessionModel {
                    selections: m.selections.update(f, mark_range(sel, h, hs.len() as int)),
                    ..m
                },
            ),
            SessionNotice::Nothing,
        ),
        Some(InteractiveCommand::Done) => (next_file(files, m), SessionNotice::Nothing),
        Some(InteractiveCommand::NextFile) => (next_file(files, m), SessionNotice::Nothing),
        Some(InteractiveCommand::Split) => if splittable(hs[h]) {
            let ps = split_spec(hs[h]).unwrap();
            (
                SessionModel {
                    hunks: m.hunks.update(f, spliced(hs, h, ps)),
                    selections: m.selections.update(f, spread(sel, h, ps.len())),
                    ..m
                },
                SessionNotice::Nothing,
            )
        } else {
            (m, SessionNotice::CannotSplit)
        },
        Some(InteractiveCommand::Help) => (m, SessionNotice::Help),
        Some(InteractiveCommand::PrevFile) => (
            enter_file(files, SessionModel { file_idx: previous(f), ..m }),
            SessionNotice::Nothing,
        ),
        None => (m, SessionNotice::InvalidCommand),
    }
}

/// What a command does to an ongoing session.
pub open spec fn session_step(files: Seq<FileHunks>, m: SessionModel, cmd: Option<InteractiveCommand>) -> (SessionModel, SessionNotice) {
    if files[m.file_idx].is_binary {
        binary_step(files, m, cmd)
    } else {
        hunk_step(files, m, cmd)
    }
}

/// The hunk lists of every file: a file has hunks just when it had some at
/// the start, and then one selection per hunk.
pub open spec fn hunks_match(files: Seq<FileHunks>, m: SessionModel) -> bool {
    &&& m.hunks.len() == files.len()
    &&& forall|i: int|
        0 <= i < files.len() ==> ((#[trigger] m.hunks[i]).len() == 0) == (files[i].hunks@.len() == 0)
    &&& forall|i: int|
        0 <= i < files.len() && (#[trigger] m.hunks[i]).len() > 0 ==> m.selections[i].len()
            == m.hunks[i].len()
}

/// A session over `files` in a state its steps can reach: one selection list
/// (never empty) per file and one per hunk, and, while it goes on, a file at
/// hand and, for a text file, a hunk at hand.
pub open spec fn session_wf(files: Seq<FileHunks>, m: SessionModel) -> bool {
    &&& m.selections.len() == files.len()
    &&& forall|i: int| 0 <= i < files.len() ==> (#[trigger] m.selections[i]).len() >= 1
    &&& hunks_match(files, m)
    &&& 0 <= m.file_idx
    &&& 0 <= m.hunk_idx
    &&& !m.finished ==> m.file_idx < files.len()
    &&& !m.finished && !files[m.file_idx].is_binary ==> m.hunk_idx < m.hunks[m.file_idx].len()
}

/// The session's view is well formed.
pub open spec fn session_ok(files: Seq<FileHunks>, s: Session) -> bool {
    &&& session_wf(files, s@)
    &&& s.selections@.len() == files.len()
    &&& s.hunks@.len() == files.len()
}

/// Pads `sel` with skips to at least `n` entries.
fn extend_exec(sel: &mut Vec<HunkSelection>, n: usize)
    ensures
        final(sel)@ == extend_to(old(sel)@, n as int),
{
    let ghost s0 = sel@;
    while sel.len() < n
        invariant
            s0.len() <= sel@.len() <= n || (sel@.len() == s0.len() && s0.len() >= n),
            sel@.len() <= s0.len() || sel@.len() <= n,
            sel@ == s0 + skips((sel@.len() - s0.len()) as nat),
        decreases n - sel@.len(),
    {
        let ghost prev = sel@;
        sel.push(HunkSelection::Skip);
        assert(sel@ =~= s0 + skips((sel@.len() - s0.len()) as nat));
    }
    assert(sel@ =~= extend_to(s0, n as int)) by {
        if s0.len() >= n {
            assert(skips(0) =~= Seq::<HunkSelection>::empty());
        }
    }
}

/// Accepts entry `i` of `sel`.
fn mark_exec(sel: &mut Vec<HunkSelection>, i: usize)
    requires
        i < usize::MAX,
    ensures
        final(sel)@ == mark(old(sel)@, i as int),
{
    extend_exec(sel, i + 1);
    sel.set(i, HunkSelection::Accept);
}

/// Gives entry `h` of `sel` to each of `n` pieces.
fn spread_exec(sel: &Vec<HunkSelection>, h: usize, n: usize) -> (r: Vec<HunkSelection>)
    requires
        h < sel@.len(),
    ensures
        r@ == spread(sel@, h as int, n as nat),
{
    let mut r: Vec<HunkSelection> = Vec::new();
    let mut i: usize = 0;
    while i < h
        invariant
            i <= h < sel@.len(),
            r@ == sel@.take(i as int),
        decreases h - i,
    {
        r.push(sel[i]);
        i += 1;
        assert(r@ =~= sel@.take(i as int));
    }
    let ghost head = r@;
    let mut j: usize = 0;
    while j < n
        invariant
            j <= n,
            h < sel@.len(),
            head == sel@.take(h as int),
            r@ == head + Seq::new(j as nat, |k: int| sel@[h as int]),
        decreases n - j,
    {
        r.push(sel[h]);
        j += 1;
        assert(r@ =~= head + Seq::new(j as nat, |k: int| sel@[h as int]));
    }
    let ghost mid = r@;
    let len = sel.len();
    let mut i: usize = h + 1;
    while i < len
        invariant
            len == sel@.len(),
            h + 1 <= i <= sel@.len(),
            r@ == mid + sel@.subrange(h + 1, i as int),
        decreases sel@.len() - i,
    {
        r.push(sel[i]);
        i += 1;
        assert(r@ =~= mid + sel@.subrange(h + 1, i as int));
    }
    assert(sel@.subrange(h + 1, sel@.len() as int) =~= sel@.skip(h + 1));
    r
}

/// The hunks with hunk `h` replaced by `pieces`.
fn splice_hunks(hunks: Vec<DiffHunk>, h: usize, pieces: Vec<DiffHunk>) -> (r: Vec<DiffHunk>)
    requires
        h < hunks@.len(),
    ensures
        hunk_models(r@) == hunk_models(hunks@).take(h as int) + hunk_models(pieces@) + hunk_models(
            hunks@,
        ).skip(h + 1),
{
    let ghost all = hunk_models(hunks@);
    let ghost pv = hunk_models(pieces@);
    let ghost raw = hunks@;
    let ghost praw = pieces@;
    let mut hunks = hunks;
    let mut pieces = pieces;
    let n = hunks.len();
    assert(h + 1 <= n);
    let mut tail = hunks.split_off(h + 1);
    let _ = hunks.pop();
    assert(hunks@ =~= raw.take(h as int));
    assert(tail@ =~= raw.skip(h + 1));
    hunks.append(&mut pieces);
    hunks.append(&mut tail);
    assert(hunks@ =~= raw.take(h as int) + praw + raw.skip(h + 1));
    assert(hunk_models(hunks@) =~= all.take(h as int) + pv + all.skip(h + 1));
    hunks
}

proof fn lemma_enter_file(files: Seq<FileHunks>, m: SessionModel)
    requires
        0 <= m.file_idx,
        0 <= m.hunk_idx,
        !m.finished,
        hunks_match(files, m),
    ensures
        enter_file(files, m).selections == m.selections,
        enter_file(files, m).hunks == m.hunks,
        enter_file(files, m).quit_early == m.quit_early,
        enter_file(files, m).file_idx >= m.file_idx,
        0 <= enter_file(files, m).hunk_idx,
        !enter_file(files, m).finished ==> enter_file(files, m).file_idx < files.len(),
        !enter_file(files, m).finished && !files[enter_file(files, m).file_idx].is_binary
            ==> enter_file(files, m).hunk_idx < enter_file(files, m).hunks[enter_file(
            files,
            m,
        ).file_idx].len(),
    decreases files.len() - m.file_idx,
{
    let f = m.file_idx;
    if 0 <= f < files.len() {
        if !files[f].is_binary && files[f].hunks@.len() == 0 {
            lemma_enter_file(files, SessionModel { file_idx: f + 1, ..m });
        } else {
            assert((m.hunks[f].len() == 0) == (files[f].hunks@.len() == 0));
        }
    }
}

proof fn lemma_mark(sel: Seq<HunkSelection>, i: int)
    requires
        0 <= i,
    ensures
        mark(sel, i).len() >= sel.len(),
        mark(sel, i).len() > i,
        mark(sel, i)[i] == HunkSelection::Accept,
        forall|j: int| 0 <= j < sel.len() && j != i ==> mark(sel, i)[j] == sel[j],
{
}

proof fn lemma_mark_range(sel: Seq<HunkSelection>, from: int, to: int)
    requires
        0 <= from,
    ensures
        mark_range(sel, from, to).len() >= sel.len(),
        to <= sel.len() ==> mark_range(sel, from, to).len() == sel.len(),
    decreases to - from,
{
    if from < to {
        lemma_mark(sel, from);
        lemma_mark_range(mark(sel, from), from + 1, to);
    }
}

/// Giving file `f` the selections `sel` and the hunks `hs` keeps the hunk
/// lists matched when `sel` has one entry per hunk and `hs` is not empty.
proof fn lemma_update_file(
    files: Seq<FileHunks>,
    m: SessionModel,
    f: int,
    sel: Seq<HunkSelection>,
    hs: Seq<HunkModel>,
)
    requires
        hunks_match(files, m),
        m.selections.len() == files.len(),
        forall|i: int| 0 <= i < files.len() ==> (#[trigger] m.selections[i]).len() >= 1,
        0 <= f < files.len(),
        m.hunks[f].len() > 0,
        hs.len() > 0,
        sel.len() == hs.len(),
    ensures
        ({
            let r = SessionModel {
                selections: m.selections.update(f, sel),
                hunks: m.hunks.update(f, hs),
                ..m
            };
            &&& hunks_match(files, r)
            &&& r.selections.len() == files.len()
            &&& forall|i: int| 0 <= i < files.len() ==> (#[trigger] r.selections[i]).len() >= 1
        }),
{
    let r = SessionModel { selections: m.selections.update(f, sel), hunks: m.hunks.update(f, hs), ..m };
    assert((m.hunks[f].len() == 0) == (files[f].hunks@.len() == 0));
    assert forall|i: int| 0 <= i < files.len() implies ((#[trigger] r.hunks[i]).len() == 0) == (
    files[i].hunks@.len() == 0) by {
        assert((m.hunks[i].len() == 0) == (files[i].hunks@.len() == 0));
    }
    assert forall|i: int| 0 <= i < files.len() && (#[trigger] r.hunks[i]).len() > 0 implies r.selections[i].len()
        == r.hunks[i].len() by {
        if i != f {
            assert(m.hunks[i].len() > 0);
        }
    }
    assert forall|i: int| 0 <= i < files.len() implies (#[trigger] r.selections[i]).len() >= 1 by {
        assert(m.selections[i].len() >= 1);
    }
}

/// Every step keeps the session well formed.
pub proof fn law_step_keeps_session_wf(files: Seq<FileHunks>, m: SessionModel, cmd: Option<InteractiveCommand>)
    requires
        session_wf(files, m),
        !m.finished,
    ensures
        session_wf(files, session_step(files, m, cmd).0),
{
    let f = m.file_idx;
    let h = m.hunk_idx;
    let r = session_step(files, m, cmd).0;
    let sel = m.selections[f];
    let hs = m.hunks[f];
    assert(sel.len() >= 1);
    if files[f].is_binary {
        match cmd {
            Some(InteractiveCommand::Yes) => {
                let s2 = sel.update(0, HunkSelection::Accept);
                let m1 = SessionModel { selections: m.selections.update(f, s2), ..m };
                assert(m1.hunks == m.hunks);
                assert forall|i: int| 0 <= i < files.len() implies (#[trigger] m1.selections[i]).len()
                    >= 1 by {
                    assert(m.selections[i].len() >= 1);
                }
                assert forall|i: int| 0 <= i < files.len() && (#[trigger] m1.hunks[i]).len() > 0 implies m1.selections[i].len()
                    == m1.hunks[i].len() by {
                    assert(m.hunks[i].len() > 0);
                }
                assert(hunks_match(files, m1));
                lemma_enter_file(files, SessionModel { file_idx: f + 1, ..m1 });
            },
            Some(InteractiveCommand::No) | Some(InteractiveCommand::NextFile) => {
                lemma_enter_file(files, SessionModel { file_idx: f + 1, ..m });
            },
            Some(InteractiveCommand::PrevFile) => {
                lemma_enter_file(files, SessionModel { file_idx: previous(f), ..m });
            },
            _ => {},
        }
    } else {
        assert(hs.len() > 0);
        assert(sel.len() == hs.len());
        match cmd {
            Some(InteractiveCommand::Yes) => {
                lemma_mark(sel, h);
                lemma_update_file(files, m, f, mark(sel, h), hs);
                let m1 = SessionModel {
                    selections: m.selections.update(f, mark(sel, h)),
                    hunks: m.hunks.update(f, hs),
                    ..m
                };
                assert(m.hunks.update(f, hs) =~= m.hunks);
                let m2 = SessionModel { hunk_idx: h + 1, ..m1 };
                if h + 1 >= hs.len() {
                    lemma_enter_file(files, SessionModel { file_idx: f + 1, ..m2 });
                }
            },
            Some(InteractiveCommand::No) => {
                if h + 1 >= hs.len() {
                    lemma_enter_file(files, SessionModel { file_idx: f + 1, hunk_idx: h + 1, ..m });
                }
            },
            Some(InteractiveCommand::All) => {
                let s2 = mark_range(sel, h, hs.len() as int);
                lemma_mark_range(sel, h, hs.len() as int);
                lemma_update_file(files, m, f, s2, hs);
                assert(m.hunks.update(f, hs) =~= m.hunks);
                let m1 = SessionModel { selections: m.selections.update(f, s2), ..m };
                lemma_enter_file(files, SessionModel { file_idx: f + 1, ..m1 });
            },
            Some(InteractiveCommand::Done) | Some(InteractiveCommand::NextFile) => {
                lemma_enter_file(files, SessionModel { file_idx: f + 1, ..m });
            },
            Some(InteractiveCommand::Split) => {
                if splittable(hs[h]) {
                    let ps = split_spec(hs[h]).unwrap();
                    crate::hunk::law_split_pieces(hs[h]);
                    lemma_update_file(files, m, f, spread(sel, h, ps.len()), spliced(hs, h, ps));
                }
            },
            Some(InteractiveCommand::PrevFile) => {
                lemma_enter_file(files, SessionModel { file_idx: previous(f), ..m });
            },
            _ => {},
        }
    }
}

impl Session {
    /// Enters the file at `self.file_idx` (see `enter_file`).
    fn enter(&mut self, files: &Vec<FileHunks>)
        requires
            old(self).file_idx <= files@.len(),
        ensures
            final(self)@ == enter_file(files@, old(self)@),
            final(self).selections@ == old(self).selections@,
            final(self).hunks@ == old(self).hunks@,
    {
        let ghost m0 = self@;
        while self.file_idx < files.len() && !files[self.file_idx].is_binary
            && files[self.file_idx].hunks.len() == 0
            invariant
                self.file_idx <= files@.len(),
                enter_file(files@, self@) == enter_file(files@, m0),
                self.selections@ == old(self).selections@,
                self.hunks@ == old(self).hunks@,
            decreases files@.len() - self.file_idx,
        {
            let ghost before = self@;
            self.file_idx += 1;
            assert(self@ =~= SessionModel { file_idx: before.file_idx + 1, ..before });
        }
        if self.file_idx >= files.len() {
            let ghost before = self@;
            self.finished = true;
            assert(self@ =~= SessionModel { finished: true, ..before });
        } else {
            let ghost before = self@;
            self.hunk_idx = 0;
            assert(self@ =~= SessionModel { hunk_idx: 0, ..before });
        }
    }

    /// Starts a session over the given files.
    pub fn new(files: &Vec<FileHunks>) -> (s: Session)
        ensures
            s@ == session_start(files@),
            session_ok(files@, s),
    {
        let mut selections: Vec<Vec<HunkSelection>> = Vec::new();
        let mut hunks: Vec<Vec<DiffHunk>> = Vec::new();
        let mut i: usize = 0;
        while i < files.len()
            invariant
                i <= files@.len(),
                selections@.len() == i,
                hunks@.len() == i,
                forall|j: int|
                    0 <= j < i ==> (#[trigger] selections@[j])@ == initial_selections(files@)[j],
                forall|j: int|
                    0 <= j < i ==> hunk_models((#[trigger] hunks@[j])@) == initial_hunks(files@)[j],
            decreases files@.len() - i,
        {
            hunks.push(duplicate_hunks(&files[i].hunks));
            let k = files[i].hunks.len();
            let len = if k > 1 {
                k
            } else {
                1
            };
            let mut v: Vec<HunkSelection> = Vec::new();
            extend_exec(&mut v, len);
            assert(v@ =~= skips(len as nat));
            assert(v@ == initial_selections(files@)[i as int]);
            selections.push(v);
            i += 1;
        }
        assert(selection_views(selections@) =~= initial_selections(files@));
        assert(hunk_lists(hunks@) =~= initial_hunks(files@));
        let ghost m0 = SessionModel {
            file_idx: 0,
            hunk_idx: 0,
            hunks: initial_hunks(files@),
            selections: initial_selections(files@),
            quit_early: false,
            finished: false,
        };
        let mut s = Session { file_idx: 0, hunk_idx: 0, hunks, selections, quit_early: false, finished: false };
        assert(s@ =~= m0);
        proof {
            assert forall|i: int| 0 <= i < files@.len() && (#[trigger] m0.hunks[i]).len() > 0 implies m0.selections[i].len()
                == m0.hunks[i].len() by {}
            assert(hunks_match(files@, m0));
            lemma_enter_file(files@, m0);
        }
        s.enter(files);
        s
    }
}

impl Session {
    /// Accepts entry `i` of the selections of file `f`.
    fn mark_selection(&mut self, f: usize, i: usize)
        requires
            f < old(self).selections@.len(),
            i < usize::MAX,
        ensures
            final(self)@ == (SessionModel {
                selections: old(self)@.selections.update(
                    f as int,
                    mark(old(self)@.selections[f as int], i as int),
                ),
                ..old(self)@
            }),
            final(self).selections@.len() == old(self).selections@.len(),
    {
        let ghost before = self@;
        let mut sel: Vec<HunkSelection> = Vec::new();
        self.selections.set_and_swap(f, &mut sel);
        mark_exec(&mut sel, i);
        self.selections.set(f, sel);
        assert(self@ =~= SessionModel {
            selections: before.selections.update(f as int, mark(before.selections[f as int], i as int)),
            ..before
        });
    }

    /// Accepts entries `from..to` of file `f`.
    fn mark_selection_range(&mut self, f: usize, from: usize, to: usize)
        requires
            f < old(self).selections@.len(),
        ensures
            final(self)@ == (SessionModel {
                selections: old(self)@.selections.update(
                    f as int,
                    mark_range(old(self)@.selections[f as int], from as int, to as int),
                ),
                ..old(self)@
            }),
            final(self).selections@.len() == old(self).selections@.len(),
    {
        let ghost before = self@;
        let mut sel: Vec<HunkSelection> = Vec::new();
        self.selections.set_and_swap(f, &mut sel);
        let ghost s0 = sel@;
        let mut i = from;
        while i < to
            invariant
                from <= i <= to || (i == from && from >= to),
                mark_range(sel@, i as int, to as int) == mark_range(s0, from as int, to as int),
            decreases to - i,
        {
            mark_exec(&mut sel, i);
            i += 1;
        }
        self.selections.set(f, sel);
        assert(self@ =~= SessionModel {
            selections: before.selections.update(
                f as int,
                mark_range(before.selections[f as int], from as int, to as int),
            ),
            ..before
        });
    }

    /// Accepts the whole binary file `f`.
    fn accept_binary(&mut self, f: usize)
        requires
            f < old(self).selections@.len(),
            old(self).selections@[f as int]@.len() >= 1,
        ensures
            final(self)@ == (SessionModel {
                selections: old(self)@.selections.update(
                    f as int,
                    old(self)@.selections[f as int].update(0, HunkSelection::Accept),
                ),
                ..old(self)@
            }),
            final(self).selections@.len() == old(self).selections@.len(),
    {
        let ghost before = self@;
        let mut sel: Vec<HunkSelection> = Vec::new();
        self.selections.set_and_swap(f, &mut sel);
        sel.set(0, HunkSelection::Accept);
        self.selections.set(f, sel);
        assert(self@ =~= SessionModel {
            selections: before.selections.update(
                f as int,
                before.selections[f as int].update(0, HunkSelection::Accept),
            ),
            ..before
        });
    }

    /// Replaces hunk `h` of file `f` by `pieces`, each taking the
    /// selection of the hunk it comes from.
    fn split_hunk(&mut self, f: usize, h: usize, pieces: Vec<DiffHunk>)
        requires
            f < old(self).selections@.len(),
            f < old(self).hunks@.len(),
            h < old(self).hunks@[f as int]@.len(),
            h < old(self).selections@[f as int]@.len(),
        ensures
            final(self)@ == (SessionModel {
                hunks: old(self)@.hunks.update(
                    f as int,
                    spliced(old(self)@.hunks[f as int], h as int, hunk_models(pieces@)),
                ),
                selections: old(self)@.selections.update(
                    f as int,
                    spread(old(self)@.selections[f as int], h as int, pieces@.len()),
                ),
                ..old(self)@
            }),
            final(self).selections@.len() == old(self).selections@.len(),
            final(self).hunks@.len() == old(self).hunks@.len(),
    {
        let ghost before = self@;
        let n = pieces.len();
        let mut hs: Vec<DiffHunk> = Vec::new();
        self.hunks.set_and_swap(f, &mut hs);
        let ghost hv = hunk_models(hs@);
        assert(hv == before.hunks[f as int]);
        let spliced_hunks = splice_hunks(hs, h, pieces);
        self.hunks.set(f, spliced_hunks);
        let sel = spread_exec(&self.selections[f], h, n);
        self.selections.set(f, sel);
        assert(self@ =~= SessionModel {
            hunks: before.hunks.update(f as int, spliced(hv, h as int, hunk_models(pieces@))),
            selections: before.selections.update(
                f as int,
                spread(before.selections[f as int], h as int, n as nat),
            ),
            ..before
        });
    }

    /// Moves to file `f` and enters it.
    fn go_to_file(&mut self, files: &Vec<FileHunks>, f: usize)
        requires
            f <= files@.len(),
        ensures
            final(self)@ == enter_file(files@, SessionModel { file_idx: f as int, ..old(self)@ }),
            final(self).selections@ == old(self).selections@,
            final(self).hunks@ == old(self).hunks@,
    {
        let ghost before = self@;
        self.file_idx = f;
        assert(self@ =~= SessionModel { file_idx: f as int, ..before });
        self.enter(files);
    }

    /// Runs one command of the user and tells what to show besides the next prompt.
    pub fn step(&mut self, files: &Vec<FileHunks>, cmd: Option<InteractiveCommand>) -> (n: SessionNotice)
        requires
            session_ok(files@, *old(self)),
            !old(self).finished,
        ensures
            (final(self)@, n) == session_step(files@, old(self)@, cmd),
            session_ok(files@, *final(self)),
    {
        proof {
            law_step_keeps_session_wf(files@, self@, cmd);
        }
        let ghost m = self@;
        let f = self.file_idx;
        let file_count = files.len();
        assert(f < file_count);
        assert(self.selections@[f as int]@ == m.selections[f as int]);
        assert(hunk_models(self.hunks@[f as int]@) == m.hunks[f as int]);
        if files[f].is_binary {
            match cmd {
                Some(InteractiveCommand::Yes) => {
                    self.accept_binary(f);
                    self.go_to_file(files, f + 1);
                    SessionNotice::Nothing
                },
                Some(InteractiveCommand::No) | Some(InteractiveCommand::NextFile) => {
                    self.go_to_file(files, f + 1);
                    SessionNotice::Nothing
                },
                Some(InteractiveCommand::Quit) => {
                    self.quit_early = true;
                    self.finished = true;
                    assert(self@ =~= SessionModel { quit_early: true, finished: true, ..m });
                    SessionNotice::Nothing
                },
                Some(InteractiveCommand::PrevFile) => {
                    let p = if f > 0 {
                        f - 1
                    } else {
                        0
                    };
                    self.go_to_file(files, p);
                    SessionNotice::Nothing
                },
                Some(InteractiveCommand::Help) => SessionNotice::Help,
                _ => SessionNotice::Nothing,
            }
        } else {
            let h = self.hunk_idx;
            match cmd {
                Some(InteractiveCommand::Yes) => {
                    let count = self.hunks[f].len();
                    self.mark_selection(f, h);
                    self.hunk_idx = h + 1;
                    if h + 1 >= count {
                        self.go_to_file(files, f + 1);
                    }
                    SessionNotice::Nothing
                },
                Some(InteractiveCommand::No) => {
                    let count = self.hunks[f].len();
                    self.hunk_idx = h + 1;
                    if h + 1 >= count {
                        self.go_to_file(files, f + 1);
                    }
                    SessionNotice::Nothing
                },
                Some(InteractiveCommand::Quit) => {
                    self.quit_early = true;
                    self.finished = true;
                    assert(self@ =~= SessionModel { quit_early: true, finished: true, ..m });
                    SessionNotice::Nothing
                },
                Some(InteractiveCommand::All) => {
                    let count = self.hunks[f].len();
                    self.mark_selection_range(f, h, count);
                    self.go_to_file(files, f + 1);
                    SessionNotice::Nothing
                },
                Some(InteractiveCommand::Done) | Some(InteractiveCommand::NextFile) => {
                    self.go_to_file(files, f + 1);
                    SessionNotice::Nothing
                },
                Some(InteractiveCommand::Split) => {
                    let hunk = &self.hunks[f][h];
                    assert(hunk@ == m.hunks[f as int][h as int]);
                    if hunk.can_split() && hunk_ranges_fit(hunk) {
                        match hunk.split() {
                            Some(pieces) => {
                                self.split_hunk(f, h, pieces);
                                SessionNotice::Nothing
                            },
                            None => SessionNotice::CannotSplit,
                        }
                    } else {
                        SessionNotice::CannotSplit
                    }
                },
                Some(InteractiveCommand::Help) => SessionNotice::Help,
                Some(InteractiveCommand::PrevFile) => {
                    let p = if f > 0 {
                        f - 1
                    } else {
                        0
                    };
                    self.go_to_file(files, p);
                    SessionNotice::Nothing
                },
                None => SessionNotice::InvalidCommand,
            }
        }
    }
}

impl Session {
    /// Ends the session: each file takes its hunks as split during the
    /// session, and the selections come back beside them, one per hunk of a
    /// file that has hunks.
    pub fn into_reviewed(self, files: Vec<FileHunks>) -> (r: (Vec<FileHunks>, Vec<Vec<HunkSelection>>))
        requires
            session_ok(files@, self),
        ensures
            r.0@.len() == files@.len(),
            forall|i: int|
                0 <= i < files@.len() ==> {
                    &&& hunk_models((#[trigger] r.0@[i]).hunks@) == self@.hunks[i]
                    &&& r.0@[i].path == files@[i].path
                    &&& r.0@[i].original_content == files@[i].original_content
                    &&& r.0@[i].modified_content == files@[i].modified_content
                    &&& r.0@[i].is_binary == files@[i].is_binary
                    &&& r.0@[i].change_entry == files@[i].change_entry
                },
            selection_views(r.1@) == self@.selections,
    {
        let ghost fs = files@;
        let ghost hv = self@.hunks;
        let ghost m = self@;
        let mut files = files;
        let mut hunks = self.hunks;
        let mut out: Vec<FileHunks> = Vec::new();
        let n = files.len();
        let mut k: usize = 0;
        while k < n
            invariant
                n == fs.len(),
                k <= n,
                files@ == fs.skip(k as int),
                hunks@.len() == n - k,
                forall|j: int| 0 <= j < n - k ==> hunk_models((#[trigger] hunks@[j])@) == hv[k + j],
                out@.len() == k,
                forall|j: int|
                    0 <= j < k ==> {
                        &&& hunk_models((#[trigger] out@[j]).hunks@) == hv[j]
                        &&& out@[j].path == fs[j].path
                        &&& out@[j].original_content == fs[j].original_content
                        &&& out@[j].modified_content == fs[j].modified_content
                        &&& out@[j].is_binary == fs[j].is_binary
                        &&& out@[j].change_entry == fs[j].change_entry
                    },
            decreases n - k,
        {
            let ghost hs0 = hunks@;
            let mut fh = files.remove(0);
            assert(fh == fs[k as int]);
            let hs = hunks.remove(0);
            assert(hunk_models(hs@) == hv[k as int]) by {
                assert(hs == hs0[0]);
            }
            fh.hunks = hs;
            out.push(fh);
            assert forall|j: int| 0 <= j < n - (k + 1) implies hunk_models(
                (#[trigger] hunks@[j])@,
            ) == hv[k + 1 + j] by {
                assert(hunks@[j] == hs0[j + 1]);
            }
            assert(files@ =~= fs.skip(k + 1));
            k += 1;
        }
        (out, self.selections)
    }
}

/// Accepting entries `from .. to` accepts exactly those (padding with skips
/// where the selections were shorter) and leaves every other entry as it was.
pub proof fn law_mark_range_accepts_exactly(sel: Seq<HunkSelection>, from: int, to: int)
    requires
        0 <= from,
    ensures
        from >= to ==> mark_range(sel, from, to) == sel,
        from < to ==> mark_range(sel, from, to).len() == (if sel.len() >= to {
            sel.len() as int
        } else {
            to
        }),
        forall|j: int|
            0 <= j < mark_range(sel, from, to).len() ==> #[trigger] mark_range(sel, from, to)[j] == (
            if from <= j < to {
                HunkSelection::Accept
            } else if j < sel.len() {
                sel[j]
            } else {
                HunkSelection::Skip
            }),
    decreases to - from,
{
    if from < to {
        let s1 = mark(sel, from);
        lemma_mark(sel, from);
        law_mark_range_accepts_exactly(s1, from + 1, to);
        assert(s1.len() == (if sel.len() >= from + 1 {
            sel.len() as int
        } else {
            from + 1
        }));
        assert forall|j: int| 0 <= j < s1.len() implies #[trigger] s1[j] == (if j == from {
            HunkSelection::Accept
        } else if j < sel.len() {
            sel[j]
        } else {
            HunkSelection::Skip
        }) by {}
        let r = mark_range(sel, from, to);
        assert forall|j: int| 0 <= j < r.len() implies #[trigger] r[j] == (if from <= j < to {
            HunkSelection::Accept
        } else if j < sel.len() {
            sel[j]
        } else {
            HunkSelection::Skip
        }) by {
            if !(from + 1 <= j < to) && j < s1.len() {
                assert(r[j] == s1[j]);
            }
        }
    }
}

/// Answering "a" at a hunk accepts it and every later hunk of the file,
/// leaves the selections of the earlier hunks and of the other files as they
/// were, and moves on to a later file (or ends the session).
pub proof fn law_all_accepts_the_rest(files: Seq<FileHunks>, m: SessionModel)
    requires
        session_wf(files, m),
        !m.finished,
        !files[m.file_idx].is_binary,
    ensures
        ({
            let r = session_step(files, m, Some(InteractiveCommand::All)).0;
            let f = m.file_idx;
            &&& r.selections[f].len() == m.selections[f].len()
            &&& forall|j: int| 0 <= j < m.hunk_idx ==> r.selections[f][j] == m.selections[f][j]
            &&& forall|j: int|
                m.hunk_idx <= j < m.selections[f].len() ==> r.selections[f][j] == HunkSelection::Accept
            &&& forall|i: int| 0 <= i < files.len() && i != f ==> r.selections[i] == m.selections[i]
            &&& r.finished || r.file_idx > f
        }),
{
    let f = m.file_idx;
    let h = m.hunk_idx;
    let sel = m.selections[f];
    let hs = m.hunks[f];
    assert(hs.len() > 0);
    assert(sel.len() == hs.len());
    let s2 = mark_range(sel, h, hs.len() as int);
    law_mark_range_accepts_exactly(sel, h, hs.len() as int);
    lemma_mark_range(sel, h, hs.len() as int);
    lemma_update_file(files, m, f, s2, hs);
    assert(m.hunks.update(f, hs) =~= m.hunks);
    let m1 = SessionModel { selections: m.selections.update(f, s2), ..m };
    lemma_enter_file(files, SessionModel { file_idx: f + 1, ..m1 });
    assert forall|j: int| 0 <= j < h implies session_step(files, m, Some(InteractiveCommand::All)).0.selections[f][j]
        == sel[j] by {
        assert(s2[j] == sel[j]);
    }
    assert forall|j: int| h <= j < sel.len() implies session_step(
        files,
        m,
        Some(InteractiveCommand::All),
    ).0.selections[f][j] == HunkSelection::Accept by {
        assert(s2[j] == HunkSelection::Accept);
    }
}

/// Giving entry `h` to `n` pieces: the entries before `h` stay, the `n`
/// pieces all take entry `h`, and the entries after `h` follow them.
pub proof fn law_spread_gives_each_piece_the_selection(sel: Seq<HunkSelection>, h: int, n: nat)
    requires
        0 <= h < sel.len(),
    ensures
        spread(sel, h, n).len() == sel.len() - 1 + n,
        forall|j: int| 0 <= j < h ==> #[trigger] spread(sel, h, n)[j] == sel[j],
        forall|j: int| h <= j < h + n ==> #[trigger] spread(sel, h, n)[j] == sel[h],
        forall|j: int| h + n <= j < sel.len() - 1 + n ==> #[trigger] spread(sel, h, n)[j] == sel[j - n + 1],
{
}

/// Answering "s" at a hunk that can be split puts its pieces in its place,
/// each piece taking the hunk's selection, and stays at the first piece; the
/// other hunks and selections stay where they were. At a hunk that cannot be
/// split nothing changes and the user is told so.
pub proof fn law_split_keeps_the_answers(files: Seq<FileHunks>, m: SessionModel)
    requires
        session_wf(files, m),
        !m.finished,
        !files[m.file_idx].is_binary,
    ensures
        ({
            let (r, note) = session_step(files, m, Some(InteractiveCommand::Split));
            let f = m.file_idx;
            let h = m.hunk_idx;
            let hs = m.hunks[f];
            let sel = m.selections[f];
            if splittable(hs[h]) {
                let ps = split_spec(hs[h]).unwrap();
                let n = ps.len() as int;
                &&& note == SessionNotice::Nothing
                &&& r.file_idx == f && r.hunk_idx == h && !r.finished
                &&& r.hunks[f].len() == hs.len() - 1 + n
                &&& r.selections[f].len() == sel.len() - 1 + n
                &&& forall|j: int| 0 <= j < h ==> r.hunks[f][j] == hs[j] && r.selections[f][j] == sel[j]
                &&& forall|j: int|
                    h <= j < h + n ==> r.hunks[f][j] == ps[j - h] && r.selections[f][j] == sel[h]
                &&& forall|j: int|
                    h + n <= j < hs.len() - 1 + n ==> r.hunks[f][j] == hs[j - n + 1]
                        && r.selections[f][j] == sel[j - n + 1]
                &&& forall|i: int|
                    0 <= i < files.len() && i != f ==> r.hunks[i] == m.hunks[i] && r.selections[i]
                        == m.selections[i]
            } else {
                r == m && note == SessionNotice::CannotSplit
            }
        }),
{
    let f = m.file_idx;
    let h = m.hunk_idx;
    let hs = m.hunks[f];
    assert(hs.len() > 0);
    assert(m.selections[f].len() == hs.len());
    if splittable(hs[h]) {
        let ps = split_spec(hs[h]).unwrap();
        law_spread_gives_each_piece_the_selection(m.selections[f], h, ps.len());
    }
}

/// Answering "k" changes no selection and goes back to the previous file
/// (the first file stays) from its first hunk, unless that file has nothing
/// to review, when the session moves on from there.
pub proof fn law_previous_file(files: Seq<FileHunks>, m: SessionModel)
    requires
        session_wf(files, m),
        !m.finished,
    ensures
        ({
            let r = session_step(files, m, Some(InteractiveCommand::PrevFile)).0;
            let p = if m.file_idx > 0 {
                m.file_idx - 1
            } else {
                0
            };
            &&& r.selections == m.selections
            &&& r.hunks == m.hunks
            &&& (files[p].is_binary || files[p].hunks@.len() > 0) ==> !r.finished && r.file_idx == p
                && r.hunk_idx == 0
            &&& r.finished || r.file_idx >= p
        }),
{
    lemma_enter_file(files, SessionModel { file_idx: previous(m.file_idx), ..m });
}

/// Answering "n" at a hunk changes no selection and goes to the next hunk of
/// the file, or, after its last hunk, to a later file (or ends the session).
pub proof fn law_no_skips_the_hunk(files: Seq<FileHunks>, m: SessionModel)
    requires
        session_wf(files, m),
        !m.finished,
        !files[m.file_idx].is_binary,
    ensures
        ({
            let r = session_step(files, m, Some(InteractiveCommand::No)).0;
            &&& r.selections == m.selections
            &&& if m.hunk_idx + 1 < m.hunks[m.file_idx].len() {
                &&& !r.finished
                &&& r.file_idx == m.file_idx
                &&& r.hunk_idx == m.hunk_idx + 1
            } else {
                r.finished || r.file_idx > m.file_idx
            }
        }),
{
    let f = m.file_idx;
    if m.hunk_idx + 1 >= m.hunks[f].len() {
        lemma_enter_file(files, SessionModel { file_idx: f + 1, hunk_idx: m.hunk_idx + 1, ..m });
    }
}

/// Answering "d" or "j" at a hunk, or "n" or "j" at a binary file, changes
/// no selection and moves on to a later file (or ends the session); at a
/// binary file "n" does what "j" does.
pub proof fn law_leaving_a_file_moves_on(files: Seq<FileHunks>, m: SessionModel, cmd: InteractiveCommand)
    requires
        session_wf(files, m),
        !m.finished,
        cmd == InteractiveCommand::NextFile || (cmd == InteractiveCommand::Done
            && !files[m.file_idx].is_binary) || (cmd == InteractiveCommand::No
            && files[m.file_idx].is_binary),
    ensures
        ({
            let r = session_step(files, m, Some(cmd)).0;
            &&& r.selections == m.selections
            &&& r.finished || r.file_idx > m.file_idx
            &&& r == session_step(files, m, Some(InteractiveCommand::NextFile)).0
        }),
{
    lemma_enter_file(files, SessionModel { file_idx: m.file_idx + 1, ..m });
}

/// Answering "y" at a binary file accepts the whole file, leaves every other
/// selection as it was, and moves on to a later file (or ends the session).
pub proof fn law_yes_accepts_binary_file(files: Seq<FileHunks>, m: SessionModel)
    requires
        session_wf(files, m),
        !m.finished,
        files[m.file_idx].is_binary,
    ensures
        ({
            let r = session_step(files, m, Some(InteractiveCommand::Yes)).0;
            let f = m.file_idx;
            &&& r.selections[f][0] == HunkSelection::Accept
            &&& r.selections[f].len() == m.selections[f].len()
            &&& forall|j: int| 1 <= j < m.selections[f].len() ==> r.selections[f][j] == m.selections[f][j]
            &&& forall|i: int| 0 <= i < files.len() && i != f ==> r.selections[i] == m.selections[i]
            &&& r.finished || r.file_idx > f
        }),
{
    let f = m.file_idx;
    assert(m.selections[f].len() >= 1);
    let s2 = m.selections[f].update(0, HunkSelection::Accept);
    let m1 = SessionModel { selections: m.selections.update(f, s2), ..m };
    assert forall|i: int| 0 <= i < files.len() && (#[trigger] m1.hunks[i]).len() > 0 implies m1.selections[i].len()
        == m1.hunks[i].len() by {
        assert(m.hunks[i].len() > 0);
    }
    lemma_enter_file(files, SessionModel { file_idx: f + 1, ..m1 });
}

/// Answering "y" at a hunk accepts exactly that hunk: it becomes accepted and
/// every other selection stays as it was.
pub proof fn law_yes_accepts_current_hunk(files: Seq<FileHunks>, m: SessionModel)
    requires
        session_wf(files, m),
        !m.finished,
        !files[m.file_idx].is_binary,
    ensures
        ({
            let r = session_step(files, m, Some(InteractiveCommand::Yes)).0;
            &&& r.selections[m.file_idx][m.hunk_idx] == HunkSelection::Accept
            &&& forall|j: int|
                0 <= j < m.selections[m.file_idx].len() && j != m.hunk_idx
                    ==> r.selections[m.file_idx][j] == m.selections[m.file_idx][j]
            &&& forall|i: int| 0 <= i < files.len() && i != m.file_idx ==> r.selections[i] == m.selections[i]
        }),
{
    let f = m.file_idx;
    let h = m.hunk_idx;
    let hs = m.hunks[f];
    assert(m.selections[f].len() >= 1);
    lemma_mark(m.selections[f], h);
    lemma_update_file(files, m, f, mark(m.selections[f], h), hs);
    assert(m.hunks.update(f, hs) =~= m.hunks);
    let m2 = SessionModel {
        selections: m.selections.update(f, mark(m.selections[f], h)),
        hunk_idx: h + 1,
        ..m
    };
    if h + 1 >= hs.len() {
        lemma_enter_file(files, SessionModel { file_idx: f + 1, ..m2 });
    }
}

/// Quitting ends the session with the selections made so far.
pub proof fn law_quit_keeps_selections(files: Seq<FileHunks>, m: SessionModel)
    requires
        session_wf(files, m),
        !m.finished,
    ensures
        session_step(files, m, Some(InteractiveCommand::Quit)).0 == (SessionModel {
            quit_early: true,
            finished: true,
            ..m
        }),
{
}

// ---------------------------------------------------------------------------
// What to do with each file
// ---------------------------------------------------------------------------

/// What an accept or reject does to one file.
#[derive(Debug)]
pub enum FileAction {
    /// Nothing was selected: leave the file alone
    Leave,
    /// Accept the whole staged file
    AcceptWhole,
    /// Reject the whole staged file
    RejectWhole,
    /// Carry out a deletion: remove the original and the staged file
    DeleteSource,
    /// Write `content` to the destination, then make the staged file hold
    /// `remaining` (remove it when empty)
    WritePartial { content: Vec<u8>, remaining: Result<Vec<u8>, ApplyError> },
    /// Make the staged file hold `remaining` (remove it when empty)
    KeepRemaining { remaining: Vec<u8> },
}

/// Some hunk of the file is selected.
pub open spec fn any_selected(sels: Seq<HunkSelection>) -> bool {
    exists|i: int| 0 <= i < sels.len() && sels[i] == HunkSelection::Accept
}

/// Whether some hunk is selected.
fn any_accept(sels: &[HunkSelection]) -> (r: bool)
    ensures
        r == any_selected(sels@),
{
    let mut i: usize = 0;
    while i < sels.len()
        invariant
            i <= sels@.len(),
            forall|j: int| 0 <= j < i ==> sels@[j] != HunkSelection::Accept,
        decreases sels@.len() - i,
    {
        if sels[i] == HunkSelection::Accept {
            return true;
        }
        i += 1;
    }
    false
}

/// The first selection is an accept.
pub open spec fn first_selected(sels: Seq<HunkSelection>) -> bool {
    sels.len() > 0 && sels[0] == HunkSelection::Accept
}

/// The file is a new file.
pub open spec fn is_create(e: ChangeEntry) -> bool {
    e.operation == EntryOperation::Staged(SetType::Create)
}

/// The file is a deletion.
pub open spec fn is_remove(e: ChangeEntry) -> bool {
    e.operation is Remove
}

/// Whether the change creates a file.
fn creates(e: &ChangeEntry) -> (r: bool)
    ensures
        r == is_create(*e),
{
    match &e.operation {
        EntryOperation::Staged(SetType::Create) => true,
        _ => false,
    }
}

/// Whether the change removes a file.
fn removes(e: &ChangeEntry) -> (r: bool)
    ensures
        r == is_remove(*e),
{
    match &e.operation {
        EntryOperation::Remove => true,
        _ => false,
    }
}

/// The bytes of an action's remaining content.
pub open spec fn remaining_of(r: Result<Vec<u8>, ApplyError>) -> Result<Seq<u8>, ApplyError> {
    bytes_result(r)
}

/// What accepting the selected hunks of a file does: nothing without a
/// selection; a binary file is accepted whole when its first entry is
/// selected; a new file is accepted whole when everything is selected and
/// otherwise gets the selected added lines; a deletion is carried out only
/// when everything is selected; a changed file is accepted whole when
/// everything is selected and otherwise gets the selected hunks, its staged
/// copy keeping every change.
pub fn plan_accept(file_hunks: &FileHunks, selections: &[HunkSelection]) -> (r: Result<
    FileAction,
    ApplyError,
>)
    ensures
        !any_selected(selections@) ==> r matches Ok(FileAction::Leave),
        any_selected(selections@) && file_hunks.is_binary ==> (if first_selected(selections@) {
            r matches Ok(FileAction::AcceptWhole)
        } else {
            r matches Ok(FileAction::Leave)
        }),
        any_selected(selections@) && !file_hunks.is_binary && all_accepted(selections@) ==> (if is_remove(file_hunks.change_entry) {
            r matches Ok(FileAction::DeleteSource)
        } else {
            r matches Ok(FileAction::AcceptWhole)
        }),
        any_selected(selections@) && !file_hunks.is_binary && !all_accepted(selections@)
            && is_create(file_hunks.change_entry) ==> (r matches Ok(
            FileAction::WritePartial { content, remaining },
        ) && content@ == new_file_result(*file_hunks, selections@) && remaining_of(remaining)
            == remaining_result(*file_hunks, selections@)),
        any_selected(selections@) && !file_hunks.is_binary && !all_accepted(selections@)
            && is_remove(file_hunks.change_entry) ==> r matches Ok(FileAction::Leave),
        any_selected(selections@) && !file_hunks.is_binary && !all_accepted(selections@)
            && !is_create(file_hunks.change_entry) && !is_remove(file_hunks.change_entry) ==> (
        match r {
            Ok(FileAction::WritePartial { content, remaining }) => accept_result(
                *file_hunks,
                selections@,
            ) == Ok::<_, ApplyError>(content@) && remaining_of(remaining) == remaining_result(
                *file_hunks,
                selections@,
            ),
            Err(e) => accept_result(*file_hunks, selections@) == Err::<Seq<u8>, _>(e),
            _ => false,
        }),
{
    if !any_accept(selections) {
        return Ok(FileAction::Leave);
    }
    // Handle binary files (whole file accept)
    if file_hunks.is_binary {
        if selections.len() > 0 && selections[0] == HunkSelection::Accept {
            return Ok(FileAction::AcceptWhole);
        }
        return Ok(FileAction::Leave);
    }
    let all_selected = all_equal(selections, HunkSelection::Accept);
    // Handle new file (Create)
    if creates(&file_hunks.change_entry) {
        if all_selected {
            return Ok(FileAction::AcceptWhole);
        }
        let content = apply_selected_hunks_to_new_file(file_hunks, selections)?;
        let remaining = calculate_remaining_for_upper(file_hunks, selections);
        return Ok(FileAction::WritePartial { content, remaining });
    }
    // Handle deleted file (Remove): only a whole deletion makes sense
    if removes(&file_hunks.change_entry) {
        if all_selected {
            return Ok(FileAction::DeleteSource);
        }
        return Ok(FileAction::Leave);
    }
    // Handle modified file
    if all_selected {
        return Ok(FileAction::AcceptWhole);
    }
    let content = apply_selected_hunks_for_accept(file_hunks, selections)?;
    let remaining = calculate_remaining_for_upper(file_hunks, selections);
    Ok(FileAction::WritePartial { content, remaining })
}

/// What rejecting the selected hunks of a file does: nothing without a
/// selection; a binary file is rejected whole when its first entry is
/// selected; everything selected rejects the whole file; otherwise the staged
/// copy keeps only the hunks that were not rejected.
pub fn plan_reject(file_hunks: &FileHunks, selections: &[HunkSelection]) -> (r: Result<
    FileAction,
    ApplyError,
>)
    ensures
        !any_selected(selections@) ==> r matches Ok(FileAction::Leave),
        any_selected(selections@) && file_hunks.is_binary ==> (if first_selected(selections@) {
            r matches Ok(FileAction::RejectWhole)
        } else {
            r matches Ok(FileAction::Leave)
        }),
        any_selected(selections@) && !file_hunks.is_binary && all_accepted(selections@) ==> r matches Ok(
            FileAction::RejectWhole,
        ),
        any_selected(selections@) && !file_hunks.is_binary && !all_accepted(selections@) ==> (
        match r {
            Ok(FileAction::KeepRemaining { remaining }) => reject_result(*file_hunks, selections@)
                == Ok::<_, ApplyError>(remaining@),
            Err(e) => reject_result(*file_hunks, selections@) == Err::<Seq<u8>, _>(e),
            _ => false,
        }),
{
    if !any_accept(selections) {
        return Ok(FileAction::Leave);
    }
    // Handle binary files (whole file reject)
    if file_hunks.is_binary {
        if selections.len() > 0 && selections[0] == HunkSelection::Accept {
            return Ok(FileAction::RejectWhole);
        }
        return Ok(FileAction::Leave);
    }
    if all_equal(selections, HunkSelection::Accept) {
        // Reject all changes - remove the staged file
        return Ok(FileAction::RejectWhole);
    }
    // Partial reject - keep only non-rejected hunks in upper
    let remaining = apply_selected_hunks_for_reject(file_hunks, selections)?;
    Ok(FileAction::KeepRemaining { remaining })
}

// ---------------------------------------------------------------------------
// From changes to hunks
// ---------------------------------------------------------------------------

/// A file's hunks are worth reviewing: it has hunks or is binary.
pub open spec fn worth_reviewing(fh: FileHunks) -> bool {
    fh.hunks@.len() > 0 || fh.is_binary
}

/// The contents a file's hunks keep: the staged copy as modified content
/// (none for a removal) and the original (none for a new file).
pub open spec fn contents_match(
    fh: FileHunks,
    change: ChangeEntry,
    staged: Option<Vec<u8>>,
    original: Option<Vec<u8>>,
) -> bool {
    if change.operation == EntryOperation::Staged(SetType::Create) {
        &&& crate::hunk::opt_bytes(fh.original_content) == None::<Seq<u8>>
        &&& crate::hunk::opt_bytes(fh.modified_content) == crate::hunk::opt_bytes(staged)
    } else if change.operation == EntryOperation::Staged(SetType::Modify) {
        &&& crate::hunk::opt_bytes(fh.original_content) == crate::hunk::opt_bytes(original)
        &&& crate::hunk::opt_bytes(fh.modified_content) == crate::hunk::opt_bytes(staged)
    } else {
        &&& crate::hunk::opt_bytes(fh.original_content) == crate::hunk::opt_bytes(original)
        &&& crate::hunk::opt_bytes(fh.modified_content) == None::<Seq<u8>>
    }
}

/// The hunks to review for one change: a new file is one added hunk, a
/// changed file is diffed against its original, a removed file is one removed
/// hunk; renames and failed entries have none, and neither has a text file
/// without hunks.
pub fn file_hunks_for_change(
    change: ChangeEntry,
    staged_content: Option<Vec<u8>>,
    original_content: Option<Vec<u8>>,
) -> (r: Result<Option<FileHunks>, crate::diff_parser::DiffParseError>)
    requires
        change.operation is Staged ==> staged_content is Some,
        change.operation == EntryOperation::Staged(SetType::Modify) ==> original_content is Some,
        change.operation is Remove ==> original_content is Some,
    ensures
        (change.operation is Rename || change.operation is Error) ==> r matches Ok(None),
        r matches Ok(Some(fh)) ==> worth_reviewing(fh) && fh.change_entry == change
            && fh.path@ == change.destination@ && contents_match(
            fh,
            change,
            staged_content,
            original_content,
        ),
        change.operation == EntryOperation::Staged(SetType::Create) ==> (match r {
            Ok(Some(fh)) => crate::hunk::opt_bytes(fh.modified_content) == crate::hunk::opt_bytes(staged_content) && (if staged_content.unwrap()@.contains(0u8) {
                fh.is_binary && fh.hunks@.len() == 0
            } else {
                !fh.is_binary && hunk_models(fh.hunks@) == seq![crate::diff_parser::new_file_hunk(staged_content.unwrap()@)]
            }),
            Ok(None) => false,
            Err(_) => false,
        }),
        change.operation is Remove ==> (match r {
            Ok(Some(fh)) => crate::hunk::opt_bytes(fh.original_content) == crate::hunk::opt_bytes(original_content) && (if original_content.unwrap()@.contains(0u8) {
                fh.is_binary && fh.hunks@.len() == 0
            } else {
                !fh.is_binary && hunk_models(fh.hunks@) == seq![crate::diff_parser::deleted_file_hunk(original_content.unwrap()@)]
            }),
            Ok(None) => false,
            Err(_) => false,
        }),
        change.operation == EntryOperation::Staged(SetType::Modify) ==> ({
            let o = original_content.unwrap()@;
            let m = staged_content.unwrap()@;
            if o.contains(0u8) || m.contains(0u8) {
                r matches Ok(Some(fh)) && fh.is_binary
            } else {
                let patch = crate::diff_parser::diffy_patch_text(
                    crate::diff_parser::file_text(o),
                    crate::diff_parser::file_text(m),
                    3,
                );
                match crate::diff_parser::parse_patch_spec(patch) {
                    Err(e) => r == Err::<Option<FileHunks>, _>(e),
                    Ok(hs) => if hs.len() == 0 {
                        r matches Ok(None)
                    } else {
                        r matches Ok(Some(fh)) && hunk_models(fh.hunks@) == hs && !fh.is_binary
                    },
                }
            }
        }),
{
    let dest = change.destination.clone();
    let fh = match &change.operation {
        EntryOperation::Staged(SetType::Create) => {
            let staged = staged_content.unwrap();
            let fh = crate::diff_parser::create_new_file_hunks(staged.as_slice(), dest.as_str(), change);
            match fh {
                Ok(f) => f,
                Err(e) => {
                    return Err(e);
                },
            }
        },
        EntryOperation::Staged(SetType::Modify) => {
            let staged = staged_content.unwrap();
            let original = original_content.unwrap();
            crate::diff_parser::parse_file_to_hunks(
                original.as_slice(),
                staged.as_slice(),
                dest.as_str(),
                change,
            )?
        },
        EntryOperation::Remove => {
            let original = original_content.unwrap();
            let fh = crate::diff_parser::create_deleted_file_hunks(original.as_slice(), dest.as_str(), change);
            match fh {
                Ok(f) => f,
                Err(e) => {
                    return Err(e);
                },
            }
        },
        _ => {
            return Ok(None);
        },
    };
    assert(hunk_models(fh.hunks@).len() == fh.hunks@.len());
    // Skip files with no hunks (binary or no changes)
    if fh.hunks.len() > 0 || fh.is_binary {
        Ok(Some(fh))
    } else {
        Ok(None)
    }
}

} // verus!
