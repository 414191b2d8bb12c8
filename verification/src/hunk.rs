//! Hunks of a unified diff: their model, splitting a hunk into smaller ones,
//! and the per-file collection of hunks.
use colored::Colorize;
use vstd::prelude::*;
use vstd::string::StringExecFns;

use crate::text::{decimal, push_char, push_decimal};

verus! {

/// Represents a single line in a diff hunk
#[derive(Debug, Clone)]
pub enum HunkLine {
    /// Context line (unchanged)
    Context(String),
    /// Added line
    Added(String),
    /// Removed line
    Removed(String),
}

/// The three kinds of hunk lines.
#[derive(Debug, Clone, Copy, PartialEq, Eq, Structural)]
pub enum LineKind {
    Context,
    Added,
    Removed,
}

/// A hunk line as a kind and its text.
#[verifier::ext_equal]
pub struct LineModel {
    pub kind: LineKind,
    pub text: Seq<char>,
}

impl View for HunkLine {
    type V = LineModel;

    open spec fn view(&self) -> LineModel {
        match self {
            HunkLine::Context(s) => LineModel { kind: LineKind::Context, text: s@ },
            HunkLine::Added(s) => LineModel { kind: LineKind::Added, text: s@ },
            HunkLine::Removed(s) => LineModel { kind: LineKind::Removed, text: s@ },
        }
    }
}

impl HunkLine {
    /// A copy of this line.
    pub fn duplicate(&self) -> (r: HunkLine)
        ensures
            r@ == self@,
    {
        match self {
            HunkLine::Context(s) => HunkLine::Context(s.clone()),
            HunkLine::Added(s) => HunkLine::Added(s.clone()),
            HunkLine::Removed(s) => HunkLine::Removed(s.clone()),
        }
    }
}

/// Represents a single hunk from a unified diff
#[derive(Debug)]
pub struct DiffHunk {
    /// The hunk index within the file (0-indexed)
    pub index: usize,
    /// Header line (e.g., "@@ -1,5 +1,7 @@")
    pub header: String,
    /// Original line range (start, count)
    pub original_range: (usize, usize),
    /// New line range (start, count)
    pub new_range: (usize, usize),
    /// The lines of the hunk
    pub lines: Vec<HunkLine>,
}

/// A hunk as plain values.
#[verifier::ext_equal]
pub struct HunkModel {
    pub index: usize,
    pub header: Seq<char>,
    pub original_range: (usize, usize),
    pub new_range: (usize, usize),
    pub lines: Seq<LineModel>,
}

/// The models of a sequence of hunk lines.
pub open spec fn line_models(ls: Seq<HunkLine>) -> Seq<LineModel> {
    Seq::new(ls.len(), |i: int| ls[i]@)
}

/// The models of a sequence of hunks.
pub open spec fn hunk_models(hs: Seq<DiffHunk>) -> Seq<HunkModel> {
    Seq::new(hs.len(), |i: int| hs[i]@)
}

impl View for DiffHunk {
    type V = HunkModel;

    open spec fn view(&self) -> HunkModel {
        HunkModel {
            index: self.index,
            header: self.header@,
            original_range: self.original_range,
            new_range: self.new_range,
            lines: line_models(self.lines@),
        }
    }
}

/// Copies hunk lines one by one.
pub fn duplicate_lines(ls: &Vec<HunkLine>) -> (r: Vec<HunkLine>)
    ensures
        line_models(r@) == line_models(ls@),
{
    let mut r: Vec<HunkLine> = Vec::new();
    let mut i: usize = 0;
    while i < ls.len()
        invariant
            i <= ls@.len(),
            r@.len() == i,
            forall|j: int| 0 <= j < i ==> (#[trigger] r@[j])@ == ls@[j]@,
        decreases ls@.len() - i,
    {
        r.push(ls[i].duplicate());
        i += 1;
    }
    assert(line_models(r@) =~= line_models(ls@));
    r
}

impl DiffHunk {
    /// A copy of this hunk.
    pub fn duplicate(&self) -> (r: DiffHunk)
        ensures
            r@ == self@,
    {
        DiffHunk {
            index: self.index,
            header: self.header.clone(),
            original_range: self.original_range,
            new_range: self.new_range,
            lines: duplicate_lines(&self.lines),
        }
    }
}

impl Clone for DiffHunk {
    fn clone(&self) -> (r: DiffHunk)
        ensures
            r@ == self@,
    {
        self.duplicate()
    }
}

/// Copies hunks one by one.
pub fn duplicate_hunks(hs: &Vec<DiffHunk>) -> (r: Vec<DiffHunk>)
    ensures
        hunk_models(r@) == hunk_models(hs@),
{
    let mut r: Vec<DiffHunk> = Vec::new();
    let mut i: usize = 0;
    while i < hs.len()
        invariant
            i <= hs@.len(),
            r@.len() == i,
            forall|j: int| 0 <= j < i ==> (#[trigger] r@[j])@ == hs@[j]@,
        decreases hs@.len() - i,
    {
        r.push(hs[i].duplicate());
        i += 1;
    }
    assert(hunk_models(r@) =~= hunk_models(hs@));
    r
}

// ---------------------------------------------------------------------------
// Change regions
// ---------------------------------------------------------------------------

/// An added or removed line.
pub open spec fn is_change(l: LineModel) -> bool {
    l.kind != LineKind::Context
}

/// The number of maximal runs of added/removed lines.
pub open spec fn change_regions(ls: Seq<LineModel>) -> nat
    decreases ls.len(),
{
    if ls.len() == 0 {
        0
    } else {
        change_regions(ls.drop_last()) + if is_change(ls.last()) && (ls.len() == 1 || !is_change(
            ls[ls.len() - 2],
        )) {
            1nat
        } else {
            0nat
        }
    }
}

proof fn lemma_change_regions_bound(ls: Seq<LineModel>)
    ensures
        change_regions(ls) <= ls.len(),
    decreases ls.len(),
{
    if ls.len() > 0 {
        lemma_change_regions_bound(ls.drop_last());
    }
}

/// The number of lines on the original side (all but added lines).
pub open spec fn old_side_count(ls: Seq<LineModel>) -> nat
    decreases ls.len(),
{
    if ls.len() == 0 {
        0
    } else {
        old_side_count(ls.drop_last()) + if ls.last().kind == LineKind::Added {
            0nat
        } else {
            1nat
        }
    }
}

/// The number of lines on the new side (all but removed lines).
pub open spec fn new_side_count(ls: Seq<LineModel>) -> nat
    decreases ls.len(),
{
    if ls.len() == 0 {
        0
    } else {
        new_side_count(ls.drop_last()) + if ls.last().kind == LineKind::Removed {
            0nat
        } else {
            1nat
        }
    }
}

proof fn lemma_side_counts_bound(ls: Seq<LineModel>)
    ensures
        old_side_count(ls) <= ls.len(),
        new_side_count(ls) <= ls.len(),
    decreases ls.len(),
{
    if ls.len() > 0 {
        lemma_side_counts_bound(ls.drop_last());
    }
}

/// The header `"@@ -os,oc +ns,nc @@"`.
pub open spec fn header_text(os: nat, oc: nat, ns: nat, nc: nat) -> Seq<char> {
    seq!['@', '@', ' ', '-'] + decimal(os) + seq![','] + decimal(oc) + seq![' ', '+'] + decimal(
        ns,
    ) + seq![','] + decimal(nc) + seq![' ', '@', '@']
}

/// Formats the header `"@@ -os,oc +ns,nc @@"`.
pub fn format_header(os: usize, oc: usize, ns: usize, nc: usize) -> (s: String)
    ensures
        s@ == header_text(os as nat, oc as nat, ns as nat, nc as nat),
{
    let mut s = String::new();
    push_char(&mut s, '@');
    push_char(&mut s, '@');
    push_char(&mut s, ' ');
    push_char(&mut s, '-');
    push_decimal(&mut s, os);
    push_char(&mut s, ',');
    push_decimal(&mut s, oc);
    push_char(&mut s, ' ');
    push_char(&mut s, '+');
    push_decimal(&mut s, ns);
    push_char(&mut s, ',');
    push_decimal(&mut s, nc);
    push_char(&mut s, ' ');
    push_char(&mut s, '@');
    push_char(&mut s, '@');
    assert(s@ =~= header_text(os as nat, oc as nat, ns as nat, nc as nat));
    s
}

/// The hunk holding `lines`, numbered `index`, starting at `os` and `ns`.
pub open spec fn piece(index: int, lines: Seq<LineModel>, os: int, ns: int) -> HunkModel {
    HunkModel {
        index: index as usize,
        header: header_text(os as nat, old_side_count(lines), ns as nat, new_side_count(lines)),
        original_range: (os as usize, old_side_count(lines) as usize),
        new_range: (ns as usize, new_side_count(lines) as usize),
        lines: lines,
    }
}

/// Builds the hunk holding `lines`.
fn make_piece(index: usize, lines: Vec<HunkLine>, os: usize, ns: usize) -> (h: DiffHunk)
    ensures
        h@ == piece(index as int, line_models(lines@), os as int, ns as int),
{
    let (oc, nc) = side_counts(&lines);
    DiffHunk {
        index,
        header: format_header(os, oc, ns, nc),
        original_range: (os, oc),
        new_range: (ns, nc),
        lines,
    }
}

// ---------------------------------------------------------------------------
// Splitting
// ---------------------------------------------------------------------------

/// Where the split scan stands after some lines: the `[start, end)` line
/// bounds of the pieces closed so far, whether a piece is open, where the open
/// piece starts, and where the context lines not yet placed in a piece begin.
#[verifier::ext_equal]
pub struct SplitScan {
    pub bounds: Seq<(int, int)>,
    pub open: bool,
    pub start: int,
    pub pending: int,
}

/// The scan over line `i`, which is `l`.
///
/// Each run of added and removed lines becomes a piece of its own. An added
/// or removed line right after another extends the open piece. After context
/// lines it starts a new piece: the open one closes after the first half
/// (rounded up) of those context lines, and the new one starts with the
/// rest. Once six context lines follow the last change, the open piece
/// closes after three of them, and of the context lines that follow at most
/// the last three lead the next piece.
pub open spec fn split_step(st: SplitScan, i: int, l: LineModel) -> SplitScan {
    if is_change(l) {
        if !st.open {
            SplitScan { open: true, start: st.pending, pending: i + 1, ..st }
        } else if i == st.pending {
            SplitScan { pending: i + 1, ..st }
        } else {
            let cut = st.pending + (i - st.pending + 1) / 2;
            SplitScan {
                bounds: st.bounds.push((st.start, cut)),
                start: cut,
                pending: i + 1,
                ..st
            }
        }
    } else if st.open {
        if i + 1 - st.pending >= 6 {
            SplitScan {
                bounds: st.bounds.push((st.start, st.pending + 3)),
                open: false,
                pending: st.pending + 3,
                ..st
            }
        } else {
            st
        }
    } else if i + 1 - st.pending > 3 {
        SplitScan { pending: st.pending + 1, ..st }
    } else {
        st
    }
}

/// The scan after all of `ls`.
pub open spec fn split_scan(ls: Seq<LineModel>) -> SplitScan
    decreases ls.len(),
{
    if ls.len() == 0 {
        SplitScan { bounds: seq![], open: false, start: 0, pending: 0 }
    } else {
        split_step(split_scan(ls.drop_last()), ls.len() - 1, ls.last())
    }
}

/// The `[start, end)` line bounds of the pieces of `ls`: the closed ones,
/// then the open one, which takes the context lines that remain.
pub open spec fn split_bounds(ls: Seq<LineModel>) -> Seq<(int, int)> {
    let st = split_scan(ls);
    if st.open {
        st.bounds.push((st.start, ls.len() as int))
    } else {
        st.bounds
    }
}

/// Piece `k` of `h`, holding its lines `b.0 .. b.1`; it starts after the
/// lines of each side that come before it in `h`.
pub open spec fn piece_at(h: HunkModel, k: int, b: (int, int)) -> HunkModel {
    piece(
        k,
        h.lines.subrange(b.0, b.1),
        h.original_range.0 + old_side_count(h.lines.take(b.0)),
        h.new_range.0 + new_side_count(h.lines.take(b.0)),
    )
}

/// The pieces of a hunk, one per change region: `None` when it has fewer
/// than two change regions.
pub open spec fn split_spec(h: HunkModel) -> Option<Seq<HunkModel>> {
    let bs = split_bounds(h.lines);
    if change_regions(h.lines) <= 1 {
        None
    } else {
        Some(Seq::new(bs.len(), |k: int| piece_at(h, k, bs[k])))
    }
}

/// The lines of a hunk fit after its start positions without overflow.
pub open spec fn ranges_fit(h: HunkModel) -> bool {
    &&& h.original_range.0 + h.lines.len() <= usize::MAX
    &&& h.new_range.0 + h.lines.len() <= usize::MAX
}

impl DiffHunk {
    /// Check if this hunk can be split into smaller hunks
    /// A hunk can be split if it contains multiple change regions separated by context lines
    pub fn can_split(&self) -> (r: bool)
        ensures
            r == (change_regions(self@.lines) > 1),
    {
        let mut in_change_region = false;
        let mut change_regions_count: usize = 0;
        let mut i: usize = 0;
        while i < self.lines.len()
            invariant
                i <= self.lines@.len(),
                change_regions_count == change_regions(line_models(self.lines@.take(i as int))),
                in_change_region == (i > 0 && is_change(self.lines@[i - 1]@)),
            decreases self.lines@.len() - i,
        {
            let ghost pre = line_models(self.lines@.take(i as int));
            proof {
                assert(line_models(self.lines@.take(i + 1)).drop_last() =~= pre);
                lemma_change_regions_bound(pre);
            }
            match &self.lines[i] {
                HunkLine::Context(_) => {
                    in_change_region = false;
                },
                _ => {
                    if !in_change_region {
                        in_change_region = true;
                        change_regions_count += 1;
                    }
                },
            }
            i += 1;
        }
        assert(self.lines@.take(self.lines@.len() as int) =~= self.lines@);
        change_regions_count > 1
    }
}

/// Bounds as integers.
pub open spec fn bounds_view(bs: Seq<(usize, usize)>) -> Seq<(int, int)> {
    Seq::new(bs.len(), |k: int| (bs[k].0 as int, bs[k].1 as int))
}

/// Runs the split scan over `ls`.
fn scan_bounds(ls: &Vec<HunkLine>) -> (r: Vec<(usize, usize)>)
    ensures
        bounds_view(r@) == split_bounds(line_models(ls@)),
{
    let ghost all = line_models(ls@);
    let mut bounds: Vec<(usize, usize)> = Vec::new();
    let mut open = false;
    let mut start: usize = 0;
    let mut pending: usize = 0;
    let mut i: usize = 0;
    assert(all.take(0) =~= Seq::<LineModel>::empty());
    assert(bounds_view(bounds@) =~= Seq::<(int, int)>::empty());
    while i < ls.len()
        invariant
            i <= ls@.len(),
            all == line_models(ls@),
            start <= pending <= i,
            (SplitScan {
                bounds: bounds_view(bounds@),
                open,
                start: start as int,
                pending: pending as int,
            }) == split_scan(all.take(i as int)),
        decreases ls@.len() - i,
    {
        assert(all.take(i + 1).drop_last() =~= all.take(i as int));
        assert(all.take(i + 1).last() == ls@[i as int]@);
        match &ls[i] {
            HunkLine::Context(_) => {
                if open {
                    if i + 1 - pending >= 6 {
                        let ghost before = bounds_view(bounds@);
                        bounds.push((start, pending + 3));
                        assert(bounds_view(bounds@) =~= before.push(
                            (start as int, pending + 3),
                        ));
                        open = false;
                        pending = pending + 3;
                    }
                } else if i + 1 - pending > 3 {
                    pending = pending + 1;
                }
            },
            _ => {
                if !open {
                    start = pending;
                    open = true;
                } else if i > pending {
                    let cut = pending + (i - pending + 1) / 2;
                    let ghost before = bounds_view(bounds@);
                    bounds.push((start, cut));
                    assert(bounds_view(bounds@) =~= before.push((start as int, cut as int)));
                    start = cut;
                }
                pending = i + 1;
            },
        }
        i += 1;
    }
    assert(all.take(ls@.len() as int) =~= all);
    if open {
        let ghost before = bounds_view(bounds@);
        bounds.push((start, ls.len()));
        assert(bounds_view(bounds@) =~= before.push((start as int, ls@.len() as int)));
    }
    bounds
}

/// Counts the lines of each side among the first `end` lines.
fn prefix_side_counts(ls: &Vec<HunkLine>, end: usize) -> (r: (usize, usize))
    requires
        end <= ls@.len(),
    ensures
        r.0 == old_side_count(line_models(ls@).take(end as int)),
        r.1 == new_side_count(line_models(ls@).take(end as int)),
{
    let ghost all = line_models(ls@);
    let mut o: usize = 0;
    let mut n: usize = 0;
    let mut i: usize = 0;
    while i < end
        invariant
            i <= end <= ls@.len(),
            all == line_models(ls@),
            o == old_side_count(all.take(i as int)),
            n == new_side_count(all.take(i as int)),
        decreases end - i,
    {
        proof {
            assert(all.take(i + 1).drop_last() =~= all.take(i as int));
            lemma_side_counts_bound(all.take(i as int));
        }
        match &ls[i] {
            HunkLine::Added(_) => {
                n += 1;
            },
            HunkLine::Removed(_) => {
                o += 1;
            },
            HunkLine::Context(_) => {
                o += 1;
                n += 1;
            },
        }
        i += 1;
    }
    (o, n)
}

/// Counts the lines of each side.
fn side_counts(ls: &Vec<HunkLine>) -> (r: (usize, usize))
    ensures
        r.0 == old_side_count(line_models(ls@)),
        r.1 == new_side_count(line_models(ls@)),
{
    assert(line_models(ls@).take(ls@.len() as int) =~= line_models(ls@));
    prefix_side_counts(ls, ls.len())
}

/// Copies lines `a .. e`.
fn copy_range(ls: &Vec<HunkLine>, a: usize, e: usize) -> (r: Vec<HunkLine>)
    requires
        a <= e <= ls@.len(),
    ensures
        line_models(r@) == line_models(ls@).subrange(a as int, e as int),
{
    let mut r: Vec<HunkLine> = Vec::new();
    let mut i: usize = a;
    while i < e
        invariant
            a <= i <= e <= ls@.len(),
            r@.len() == i - a,
            forall|j: int| 0 <= j < r@.len() ==> (#[trigger] r@[j])@ == ls@[a + j]@,
        decreases e - i,
    {
        r.push(ls[i].duplicate());
        i += 1;
    }
    assert(line_models(r@) =~= line_models(ls@).subrange(a as int, e as int));
    r
}

impl DiffHunk {
    /// Split this hunk into smaller hunks if possible
    /// Returns None if the hunk cannot be split
    pub fn split(&self) -> (r: Option<Vec<DiffHunk>>)
        requires
            change_regions(self@.lines) > 1 ==> ranges_fit(self@),
        ensures
            match r {
                None => split_spec(self@) is None,
                Some(v) => split_spec(self@) == Some(hunk_models(v@)),
            },
    {
        if !self.can_split() {
            return None;
        }
        let ghost h = self@;
        let bounds = scan_bounds(&self.lines);
        proof {
            lemma_split_bounds(h.lines);
        }
        let ghost bs = split_bounds(h.lines);
        let mut result: Vec<DiffHunk> = Vec::new();
        let mut k: usize = 0;
        while k < bounds.len()
            invariant
                h == self@,
                ranges_fit(h),
                bounds_view(bounds@) == bs,
                bs == split_bounds(h.lines),
                bounds_within(bs, h.lines.len() as int),
                k <= bounds@.len(),
                result@.len() == k,
                forall|j: int| 0 <= j < k ==> (#[trigger] result@[j])@ == piece_at(h, j, bs[j]),
            decreases bounds@.len() - k,
        {
            let (a, e) = bounds[k];
            assert(bs[k as int] == (a as int, e as int));
            let (oa, na) = prefix_side_counts(&self.lines, a);
            proof {
                lemma_side_counts_bound(h.lines.take(a as int));
            }
            let lines = copy_range(&self.lines, a, e);
            let p = make_piece(k, lines, self.original_range.0 + oa, self.new_range.0 + na);
            result.push(p);
            k += 1;
        }
        assert(hunk_models(result@) =~= Seq::new(bs.len(), |j: int| piece_at(h, j, bs[j])));
        Some(result)
    }
}

// ---------------------------------------------------------------------------
// Laws of splitting
// ---------------------------------------------------------------------------

/// A hunk whose number is `k` and whose ranges and header agree with its lines.
pub open spec fn consistent_piece(p: HunkModel, k: int) -> bool {
    &&& p.index == k
    &&& p.original_range.1 == old_side_count(p.lines)
    &&& p.new_range.1 == new_side_count(p.lines)
    &&& p.header == header_text(
        p.original_range.0 as nat,
        p.original_range.1 as nat,
        p.new_range.0 as nat,
        p.new_range.1 as nat,
    )
}

/// Non-empty bounds inside `0 .. n`, in order and not overlapping.
pub open spec fn bounds_within(bs: Seq<(int, int)>, n: int) -> bool {
    &&& forall|k: int| 0 <= k < bs.len() ==> 0 <= (#[trigger] bs[k]).0 < bs[k].1 <= n
    &&& forall|j: int, k: int| 0 <= j < k < bs.len() ==> (#[trigger] bs[j]).1 <= (#[trigger] bs[k]).0
}

/// Some line in `a .. e` of `ls` is added or removed.
pub open spec fn holds_change(ls: Seq<LineModel>, a: int, e: int) -> bool {
    exists|j: int| a <= j < e && is_change(#[trigger] ls[j])
}

/// Line `j` lies within one of the bounds.
pub open spec fn within_some(bs: Seq<(int, int)>, j: int) -> bool {
    exists|k: int| 0 <= k < bs.len() && (#[trigger] bs[k]).0 <= j < bs[k].1
}

/// The pieces `ps` of `h` sit at the bounds `bs`: each holds its lines of `h`
/// in order, starts after the lines of each side before it, agrees with its
/// number, ranges and header, and holds a change; and every added or removed
/// line of `h` is in some piece.
pub open spec fn pieces_at(h: HunkModel, ps: Seq<HunkModel>, bs: Seq<(int, int)>) -> bool {
    &&& ps.len() == bs.len()
    &&& bounds_within(bs, h.lines.len() as int)
    &&& forall|k: int|
        0 <= k < ps.len() ==> {
            &&& (#[trigger] ps[k]).lines == h.lines.subrange(bs[k].0, bs[k].1)
            &&& ps[k].original_range.0 == h.original_range.0 + old_side_count(h.lines.take(bs[k].0))
            &&& ps[k].new_range.0 == h.new_range.0 + new_side_count(h.lines.take(bs[k].0))
            &&& consistent_piece(ps[k], k)
            &&& holds_change(h.lines, bs[k].0, bs[k].1)
        }
    &&& forall|j: int| 0 <= j < h.lines.len() && is_change(#[trigger] h.lines[j]) ==> within_some(bs, j)
}

/// What holds of the split scan after every line.
pub open spec fn split_scan_inv(ls: Seq<LineModel>, st: SplitScan) -> bool {
    &&& 0 <= st.pending <= ls.len()
    &&& st.bounds.len() <= st.pending
    &&& bounds_within(st.bounds, st.pending)
    &&& forall|k: int| 0 <= k < st.bounds.len() ==> holds_change(ls, (#[trigger] st.bounds[k]).0, st.bounds[k].1)
    &&& st.open ==> {
        &&& st.bounds.len() <= st.start < st.pending
        &&& is_change(ls[st.pending - 1])
        &&& forall|k: int| 0 <= k < st.bounds.len() ==> (#[trigger] st.bounds[k]).1 <= st.start
    }
    &&& !st.open && ls.len() > 0 ==> !is_change(ls.last())
    &&& forall|j: int| st.pending <= j < ls.len() ==> !is_change(#[trigger] ls[j])
    &&& st.bounds.len() + (if st.open {
        1int
    } else {
        0int
    }) == change_regions(ls)
    &&& forall|j: int|
        0 <= j < ls.len() && is_change(#[trigger] ls[j]) ==> within_some(st.bounds, j) || (st.open
            && st.start <= j < st.pending)
}

proof fn lemma_split_scan_inv(ls: Seq<LineModel>)
    ensures
        split_scan_inv(ls, split_scan(ls)),
    decreases ls.len(),
{
    if ls.len() > 0 {
        let prev = ls.drop_last();
        let i = ls.len() - 1;
        let l = ls.last();
        lemma_split_scan_inv(prev);
        let st = split_scan(prev);
        let nx = split_step(st, i, l);
        assert(split_scan(ls) == nx);
        assert forall|j: int| 0 <= j < prev.len() implies ls[j] == #[trigger] prev[j] by {}
        assert forall|k: int| 0 <= k < st.bounds.len() implies holds_change(
            ls,
            (#[trigger] st.bounds[k]).0,
            st.bounds[k].1,
        ) by {
            let j = choose|j: int| st.bounds[k].0 <= j < st.bounds[k].1 && is_change(#[trigger] prev[j]);
            assert(ls[j] == prev[j]);
        }
        // the piece closed by this line, if any, ends past every change of the open one
        let closes = nx.bounds.len() > st.bounds.len();
        if closes {
            assert(st.open);
            assert(nx.bounds[st.bounds.len() as int].0 == st.start);
            assert(nx.bounds[st.bounds.len() as int].1 >= st.pending);
            assert(ls[st.pending - 1] == prev[st.pending - 1]);
        }
        assert forall|j: int| 0 <= j < ls.len() && is_change(#[trigger] ls[j]) implies within_some(
            nx.bounds,
            j,
        ) || (nx.open && nx.start <= j < nx.pending) by {
            if j < prev.len() {
                assert(ls[j] == prev[j]);
                if within_some(st.bounds, j) {
                    let k = choose|k: int| 0 <= k < st.bounds.len() && (#[trigger] st.bounds[k]).0 <= j < st.bounds[k].1;
                    assert(nx.bounds[k] == st.bounds[k]);
                } else if closes {
                    assert(nx.bounds[st.bounds.len() as int].0 <= j < nx.bounds[st.bounds.len() as int].1);
                }
            }
        }
        if closes {
            assert forall|k: int| 0 <= k < nx.bounds.len() implies holds_change(
                ls,
                (#[trigger] nx.bounds[k]).0,
                nx.bounds[k].1,
            ) by {
                if k == st.bounds.len() {
                    assert(is_change(ls[st.pending - 1]));
                } else {
                    assert(nx.bounds[k] == st.bounds[k]);
                }
            }
        }
        if st.open {
            assert(ls[st.pending - 1] == prev[st.pending - 1]);
        }
        assert forall|j: int| nx.pending <= j < ls.len() implies !is_change(#[trigger] ls[j]) by {
            if j < prev.len() {
                assert(ls[j] == prev[j]);
            }
        }
        // counting the change regions
        assert(prev =~= ls.drop_last());
        if ls.len() > 1 {
            assert(ls[ls.len() - 2] == prev.last());
            if st.open {
                assert(is_change(prev.last()) == (st.pending == prev.len()));
            }
        }
    }
}

/// The bounds of the pieces lie in order inside the hunk, one per change
/// region, and each holds a change; every change lies in one of them; there
/// are fewer of them than lines.
proof fn lemma_split_bounds(ls: Seq<LineModel>)
    ensures
        bounds_within(split_bounds(ls), ls.len() as int),
        split_bounds(ls).len() <= ls.len(),
        split_bounds(ls).len() == change_regions(ls),
        forall|k: int|
            0 <= k < split_bounds(ls).len() ==> holds_change(
                ls,
                (#[trigger] split_bounds(ls)[k]).0,
                split_bounds(ls)[k].1,
            ),
        forall|j: int| 0 <= j < ls.len() && is_change(#[trigger] ls[j]) ==> within_some(split_bounds(ls), j),
{
    lemma_split_scan_inv(ls);
    let st = split_scan(ls);
    let bs = split_bounds(ls);
    if st.open {
        let n = ls.len() as int;
        assert(bs[st.bounds.len() as int] == (st.start, n));
        assert forall|k: int| 0 <= k < bs.len() implies holds_change(
            ls,
            (#[trigger] bs[k]).0,
            bs[k].1,
        ) by {
            if k == st.bounds.len() {
                assert(is_change(ls[st.pending - 1]));
            } else {
                assert(bs[k] == st.bounds[k]);
            }
        }
        assert forall|j: int| 0 <= j < ls.len() && is_change(#[trigger] ls[j]) implies within_some(
            bs,
            j,
        ) by {
            if within_some(st.bounds, j) {
                let k = choose|k: int| 0 <= k < st.bounds.len() && (#[trigger] st.bounds[k]).0 <= j < st.bounds[k].1;
                assert(bs[k] == st.bounds[k]);
            } else {
                assert(bs[st.bounds.len() as int].0 <= j < bs[st.bounds.len() as int].1);
            }
        }
    }
}

proof fn lemma_piece_consistent(k: int, lines: Seq<LineModel>, os: int, ns: int)
    requires
        0 <= k <= usize::MAX,
        0 <= os <= usize::MAX,
        0 <= ns <= usize::MAX,
        lines.len() <= usize::MAX,
    ensures
        consistent_piece(piece(k, lines, os, ns), k),
{
    lemma_side_counts_bound(lines);
}

/// A hunk splits just when it has at least two change regions, and then into
/// one piece per change region, each a run of the hunk's own lines in order,
/// not overlapping, and each holding an added or removed line. A piece starts
/// at the hunk's start plus the lines of that side that come before it in the
/// hunk; its counts and header agree with its lines and its number is its
/// position. Every added or removed line of the hunk is in some piece.
pub proof fn law_split_pieces(h: HunkModel)
    requires
        change_regions(h.lines) > 1 ==> ranges_fit(h),
    ensures
        (split_spec(h) is Some) == (change_regions(h.lines) > 1),
        split_spec(h) matches Some(ps) ==> {
            &&& ps.len() == change_regions(h.lines)
            &&& ps.len() >= 2
            &&& exists|bs: Seq<(int, int)>| pieces_at(h, ps, bs)
        },
{
    if let Some(ps) = split_spec(h) {
        let bs = split_bounds(h.lines);
        lemma_split_bounds(h.lines);
        assert forall|k: int| 0 <= k < ps.len() implies {
            &&& (#[trigger] ps[k]).lines == h.lines.subrange(bs[k].0, bs[k].1)
            &&& ps[k].original_range.0 == h.original_range.0 + old_side_count(h.lines.take(bs[k].0))
            &&& ps[k].new_range.0 == h.new_range.0 + new_side_count(h.lines.take(bs[k].0))
            &&& consistent_piece(ps[k], k)
            &&& holds_change(h.lines, bs[k].0, bs[k].1)
        } by {
            let a = bs[k].0;
            let e = bs[k].1;
            assert(ps[k] == piece_at(h, k, bs[k]));
            lemma_side_counts_bound(h.lines.take(a));
            lemma_piece_consistent(
                k,
                h.lines.subrange(a, e),
                h.original_range.0 + old_side_count(h.lines.take(a)),
                h.new_range.0 + new_side_count(h.lines.take(a)),
            );
        }
        assert(pieces_at(h, ps, bs));
    }
}

/// Whether `h` fits its ranges (see `ranges_fit`).
pub fn hunk_ranges_fit(h: &DiffHunk) -> (r: bool)
    ensures
        r == ranges_fit(h@),
{
    h.lines.len() <= usize::MAX - h.original_range.0 && h.lines.len() <= usize::MAX
        - h.new_range.0
}

// ---------------------------------------------------------------------------
// Files
// ---------------------------------------------------------------------------

/// How a file was changed.
#[derive(Debug, Clone, Copy, PartialEq, Eq, Structural)]
pub enum SetType {
    /// A new file
    Create,
    /// A changed file
    Modify,
}

/// What happened to a path.
#[derive(Debug, Clone)]
pub enum EntryOperation {
    /// The path holds a new or changed file
    Staged(SetType),
    /// The path was removed
    Remove,
    /// The path was renamed
    Rename,
    /// The change could not be read
    Error(String),
}

/// A change to one path.
#[derive(Debug, Clone)]
pub struct ChangeEntry {
    /// Where the change applies
    pub destination: String,
    /// What the change is
    pub operation: EntryOperation,
}

impl ChangeEntry {
    /// A change that modifies the file at `path`.
    pub fn test_entry(path: &str) -> (e: ChangeEntry)
        ensures
            e.destination@ == path@,
            e.operation == EntryOperation::Staged(SetType::Modify),
    {
        ChangeEntry { destination: path.to_owned(), operation: EntryOperation::Staged(SetType::Modify) }
    }
}

/// Represents all hunks for a single file change
#[derive(Debug)]
pub struct FileHunks {
    /// Path to the file (destination path)
    pub path: String,
    /// The original (source/lower) file content
    pub original_content: Option<Vec<u8>>,
    /// The modified (staged/upper) file content
    pub modified_content: Option<Vec<u8>>,
    /// List of hunks
    pub hunks: Vec<DiffHunk>,
    /// Whether this is a binary file
    pub is_binary: bool,
    /// Associated ChangeEntry
    pub change_entry: ChangeEntry,
}

/// The bytes of an optional buffer.
pub open spec fn opt_bytes(b: Option<Vec<u8>>) -> Option<Seq<u8>> {
    match b {
        Some(v) => Some(v@),
        None => None,
    }
}

impl FileHunks {
    /// Check if content appears to be binary
    pub fn is_binary_content(content: &[u8]) -> (r: bool)
        ensures
            r == content@.contains(0u8),
    {
        let mut i: usize = 0;
        while i < content.len()
            invariant
                i <= content@.len(),
                forall|j: int| 0 <= j < i ==> content@[j] != 0u8,
            decreases content@.len() - i,
        {
            if content[i] == 0u8 {
                assert(content@[i as int] == 0u8);
                return true;
            }
            i += 1;
        }
        false
    }
}

/// Selection state for a hunk during interactive mode
#[derive(Debug, Clone, Copy, PartialEq, Eq, Structural)]
pub enum HunkSelection {
    /// Accept this hunk
    Accept,
    /// Skip/reject this hunk
    Skip,
}

// ---------------------------------------------------------------------------
// Display
// ---------------------------------------------------------------------------

/// A hunk line as shown: a space, `'+'` or `'-'`, then its text.
pub open spec fn line_display(l: LineModel) -> Seq<char> {
    let mark = if l.kind == LineKind::Context {
        ' '
    } else if l.kind == LineKind::Added {
        '+'
    } else {
        '-'
    };
    seq![mark] + l.text
}

/// The shown parts, each followed by a newline.
pub open spec fn render_lines(parts: Seq<Seq<char>>) -> Seq<char>
    decreases parts.len(),
{
    if parts.len() == 0 {
        seq![]
    } else {
        render_lines(parts.drop_last()) + parts.last() + seq!['\n']
    }
}

/// The header and the shown lines, each followed by a newline.
pub open spec fn render(head: Seq<char>, parts: Seq<Seq<char>>) -> Seq<char> {
    head + seq!['\n'] + render_lines(parts)
}

/// The plain display of a hunk.
pub open spec fn display_text(h: HunkModel) -> Seq<char> {
    render(h.header, Seq::new(h.lines.len(), |i: int| line_display(h.lines[i])))
}

/// The escape sequence that ends a colour.
pub open spec fn reset_code() -> Seq<char> {
    seq!['\x1B', '[', '0', 'm']
}

/// `s` in the terminal colour `code`.
pub open spec fn painted(s: Seq<char>, code: Seq<char>) -> Seq<char> {
    seq!['\x1B', '['] + code + seq!['m'] + s + reset_code()
}

/// `s` holds the colour reset sequence.
pub open spec fn holds_reset(s: Seq<char>) -> bool {
    exists|i: int| 0 <= i && i + 4 <= s.len() && #[trigger] s.subrange(i, i + 4) == reset_code()
}

/// What colouring `s` may give: `s` itself when colours are off (by the
/// environment or the terminal), `s` wrapped in the colour's escape sequences
/// when they are on; for a text that holds a reset sequence itself, nothing
/// is stated.
pub open spec fn paint_allows(s: Seq<char>, code: Seq<char>, out: Seq<char>) -> bool {
    out == s || out == painted(s, code) || holds_reset(s)
}

/// The colour code of cyan.
pub open spec fn cyan_code() -> Seq<char> {
    seq!['3', '6']
}

/// The colour code of green.
pub open spec fn green_code() -> Seq<char> {
    seq!['3', '2']
}

/// The colour code of red.
pub open spec fn red_code() -> Seq<char> {
    seq!['3', '1']
}

/// `s` in cyan, by calling `colored::Colorize::cyan` and writing the result out
/// with `to_string`.  Claimed of it: `s` unchanged when colours are off, or
/// `s` between `ESC[36m` and `ESC[0m` when they are on; nothing for a text
/// that holds `ESC[0m` itself.
#[verifier::external_body]
fn paint_cyan(s: &str) -> (r: String)
    ensures
        paint_allows(s@, cyan_code(), r@),
{
    s.cyan().to_string()
}

/// `s` in green, by calling `colored::Colorize::green` and writing the result out
/// with `to_string`.  Claimed of it: `s` unchanged when colours are off, or
/// `s` between `ESC[32m` and `ESC[0m` when they are on; nothing for a text
/// that holds `ESC[0m` itself.
#[verifier::external_body]
fn paint_green(s: &str) -> (r: String)
    ensures
        paint_allows(s@, green_code(), r@),
{
    s.green().to_string()
}

/// `s` in red, by calling `colored::Colorize::red` and writing the result out
/// with `to_string`.  Claimed of it: `s` unchanged when colours are off, or
/// `s` between `ESC[31m` and `ESC[0m` when they are on; nothing for a text
/// that holds `ESC[0m` itself.
#[verifier::external_body]
fn paint_red(s: &str) -> (r: String)
    ensures
        paint_allows(s@, red_code(), r@),
{
    s.red().to_string()
}

/// The display parts allowed for the lines of a hunk: context lines as they
/// are shown, added and removed lines possibly coloured green and red; with
/// `colorize` off, exactly as shown.
pub open spec fn parts_allowed(ls: Seq<LineModel>, parts: Seq<Seq<char>>, colorize: bool) -> bool {
    &&& parts.len() == ls.len()
    &&& forall|i: int|
        0 <= i < ls.len() ==> {
            let shown = line_display(#[trigger] ls[i]);
            if !colorize || ls[i].kind == LineKind::Context {
                parts[i] == shown
            } else if ls[i].kind == LineKind::Added {
                paint_allows(shown, green_code(), parts[i])
            } else {
                paint_allows(shown, red_code(), parts[i])
            }
        }
}

/// The header and the shown lines, each followed by a newline.
pub fn assemble_display(head: &String, parts: &Vec<String>) -> (r: String)
    ensures
        r@ == render(head@, crate::text::string_views(parts@)),
{
    let ghost pv = crate::text::string_views(parts@);
    let mut output = String::new();
    output.append(head.as_str());
    push_char(&mut output, '\n');
    let mut i: usize = 0;
    assert(pv.take(0) =~= Seq::<Seq<char>>::empty());
    while i < parts.len()
        invariant
            i <= parts@.len(),
            pv == crate::text::string_views(parts@),
            output@ == render(head@, pv.take(i as int)),
        decreases parts@.len() - i,
    {
        output.append(parts[i].as_str());
        push_char(&mut output, '\n');
        assert(pv.take(i + 1).drop_last() =~= pv.take(i as int));
        assert(output@ =~= render(head@, pv.take(i + 1)));
        i += 1;
    }
    assert(pv.take(parts@.len() as int) =~= pv);
    output
}

/// A hunk line as shown.
fn shown_line(l: &HunkLine) -> (s: String)
    ensures
        s@ == line_display(l@),
{
    let mut shown = String::new();
    match l {
        HunkLine::Context(content) => {
            push_char(&mut shown, ' ');
            shown.append(content.as_str());
        },
        HunkLine::Added(content) => {
            push_char(&mut shown, '+');
            shown.append(content.as_str());
        },
        HunkLine::Removed(content) => {
            push_char(&mut shown, '-');
            shown.append(content.as_str());
        },
    }
    assert(shown@ =~= line_display(l@));
    shown
}

impl DiffHunk {
    /// Format this hunk for display
    pub fn format_display(&self, colorize: bool) -> (r: String)
        ensures
            !colorize ==> r@ == display_text(self@),
            exists|head: Seq<char>, parts: Seq<Seq<char>>|
                {
                    &&& (if colorize {
                        paint_allows(self.header@, cyan_code(), head)
                    } else {
                        head == self.header@
                    })
                    &&& parts_allowed(self@.lines, parts, colorize)
                    &&& r@ == render(head, parts)
                },
    {
        let head = if colorize {
            paint_cyan(self.header.as_str())
        } else {
            self.header.clone()
        };
        let mut parts: Vec<String> = Vec::new();
        let mut i: usize = 0;
        while i < self.lines.len()
            invariant
                i <= self.lines@.len(),
                parts_allowed(self@.lines.take(i as int), crate::text::string_views(parts@), colorize),
            decreases self.lines@.len() - i,
        {
            let ghost p0 = crate::text::string_views(parts@);
            let shown = shown_line(&self.lines[i]);
            let part = match &self.lines[i] {
                HunkLine::Context(_) => shown,
                HunkLine::Added(_) => if colorize {
                    paint_green(shown.as_str())
                } else {
                    shown
                },
                HunkLine::Removed(_) => if colorize {
                    paint_red(shown.as_str())
                } else {
                    shown
                },
            };
            parts.push(part);
            proof {
                let pv = crate::text::string_views(parts@);
                assert(pv =~= p0.push(part@));
                assert(self@.lines.take(i + 1).drop_last() =~= self@.lines.take(i as int));
                assert forall|j: int| 0 <= j < i + 1 implies {
                    let shown = line_display(#[trigger] self@.lines.take(i + 1)[j]);
                    if !colorize || self@.lines.take(i + 1)[j].kind == LineKind::Context {
                        pv[j] == shown
                    } else if self@.lines.take(i + 1)[j].kind == LineKind::Added {
                        paint_allows(shown, green_code(), pv[j])
                    } else {
                        paint_allows(shown, red_code(), pv[j])
                    }
                } by {
                    if j < i {
                        assert(self@.lines.take(i + 1)[j] == self@.lines.take(i as int)[j]);
                        assert(pv[j] == p0[j]);
                    }
                }
            }
            i += 1;
        }
        assert(self@.lines.take(self.lines@.len() as int) =~= self@.lines);
        let r = assemble_display(&head, &parts);
        proof {
            let pv = crate::text::string_views(parts@);
            if !colorize {
                assert(pv =~= Seq::new(self@.lines.len(), |k: int| line_display(self@.lines[k])));
            }
        }
        r
    }
}

} // verus!
