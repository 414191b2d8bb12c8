//! Character-level text utilities: line splitting and joining, whitespace,
//! decimal numbers.  Every function here works on `Seq<char>` models.
use vstd::prelude::*;
use vstd::std_specs::iter::IteratorSpec;
use vstd::string::StringExecFns;
use vstd::utf8::{decode_utf8, valid_utf8};

verus! {

broadcast use vstd::string::group_string_axioms;

/// The text that `String::from_utf8_lossy` decodes from `bytes`.
pub uninterp spec fn lossy_text(bytes: Seq<u8>) -> Seq<char>;

/// Decodes bytes as UTF-8, each invalid sequence replaced by U+FFFD, by
/// calling `String::from_utf8_lossy`.  Claimed of it: its text is
/// `lossy_text` of the bytes, and valid UTF-8 decodes to exactly its
/// characters; how invalid sequences are replaced is not stated.
#[verifier::external_body]
pub fn decode_lossy(bytes: &[u8]) -> (s: String)
    ensures
        s@ == lossy_text(bytes@),
        valid_utf8(bytes@) ==> s@ == decode_utf8(bytes@),
{
    String::from_utf8_lossy(bytes).into_owned()
}

/// The lines of a file's bytes, decoded as `String::from_utf8_lossy` does.
pub fn text_lines_of(content: &[u8]) -> (lines: Vec<String>)
    ensures
        string_views(lines@) == lines_of(lossy_text(content@)),
        valid_utf8(content@) ==> string_views(lines@) == lines_of(decode_utf8(content@)),
{
    let text = decode_lossy(content);
    let chars = chars_of(text.as_str());
    split_lines(&chars)
}

/// Appends one character to a string, by calling `String::push`.  Claimed of
/// it: the string's characters gain `c` at the end.
#[verifier::external_body]
pub fn push_char(s: &mut String, c: char)
    ensures
        final(s)@ == old(s)@.push(c),
{
    s.push(c);
}

/// The characters of a string slice, in order.
pub fn chars_of(s: &str) -> (v: Vec<char>)
    ensures
        v@ == s@,
{
    let mut it = s.chars();
    let mut v: Vec<char> = Vec::new();
    loop
        invariant
            v@ + it.remaining() == s@,
            it.decrease() is Some,
        ensures
            v@ == s@,
        decreases it.decrease()->0,
    {
        let ghost before = it.remaining();
        match it.next() {
            Some(c) => {
                v.push(c);
                assert(v@ + it.remaining() == s@) by {
                    assert(before =~= seq![c] + it.remaining());
                    assert(v@ =~= v@.drop_last().push(c));
                }
            },
            None => {
                assert(v@ =~= s@);
                break ;
            },
        }
    }
    v
}

/// A string holding the characters `v[lo..hi]`.
pub fn string_from_chars(v: &Vec<char>, lo: usize, hi: usize) -> (s: String)
    requires
        lo <= hi <= v@.len(),
    ensures
        s@ == v@.subrange(lo as int, hi as int),
{
    let mut s = String::new();
    let mut i = lo;
    while i < hi
        invariant
            lo <= i <= hi <= v@.len(),
            s@ == v@.subrange(lo as int, i as int),
        decreases hi - i,
    {
        push_char(&mut s, v[i]);
        assert(s@ =~= v@.subrange(lo as int, i + 1));
        i += 1;
    }
    s
}

/// A string holding all characters of `v`.
pub fn string_from_seq(v: &Vec<char>) -> (s: String)
    ensures
        s@ == v@,
{
    let s = string_from_chars(v, 0, v.len());
    assert(v@.subrange(0, v@.len() as int) =~= v@);
    s
}

// ---------------------------------------------------------------------------
// Lines
// ---------------------------------------------------------------------------

/// A line with the `'\r'` of a `"\r\n"` line ending removed.
pub open spec fn strip_cr(line: Seq<char>) -> Seq<char> {
    if line.len() > 0 && line.last() == '\r' {
        line.drop_last()
    } else {
        line
    }
}

/// Scanning `s` from the left: the lines completed by a `'\n'` so far, and the
/// characters of the line still open.
pub open spec fn scan_lines(s: Seq<char>) -> (Seq<Seq<char>>, Seq<char>)
    decreases s.len(),
{
    if s.len() == 0 {
        (seq![], seq![])
    } else {
        let (done, open) = scan_lines(s.drop_last());
        if s.last() == '\n' {
            (done.push(strip_cr(open)), seq![])
        } else {
            (done, open.push(s.last()))
        }
    }
}

/// The lines of a text, as `str::lines` gives them: split at `'\n'`, a `'\r'`
/// before the `'\n'` dropped, and no empty last line after a final `'\n'`.
pub open spec fn lines_of(s: Seq<char>) -> Seq<Seq<char>> {
    let (done, open) = scan_lines(s);
    if open.len() == 0 {
        done
    } else {
        done.push(open)
    }
}

/// The views of a sequence of strings.
pub open spec fn string_views(v: Seq<String>) -> Seq<Seq<char>> {
    Seq::new(v.len(), |i: int| v[i]@)
}

/// The open line of `scan_lines(s.take(i))` is the text since the last `'\n'`.
proof fn lemma_scan_open(s: Seq<char>, i: int, start: int)
    requires
        0 <= start <= i <= s.len(),
        forall|k: int| start <= k < i ==> s[k] != '\n',
        start == 0 || s[start - 1] == '\n',
    ensures
        scan_lines(s.take(i)).1 == s.subrange(start, i),
    decreases i,
{
    if i == start {
        if start > 0 {
            assert(s.take(i).drop_last() =~= s.take(i - 1));
        }
        assert(s.subrange(start, i) =~= Seq::<char>::empty());
    } else {
        lemma_scan_open(s, i - 1, start);
        assert(s.take(i).drop_last() =~= s.take(i - 1));
        assert(s.subrange(start, i) =~= s.subrange(start, i - 1).push(s[i - 1]));
    }
}

/// Splits a text into its lines (`str::lines`).
pub fn split_lines(text: &Vec<char>) -> (lines: Vec<String>)
    ensures
        string_views(lines@) == lines_of(text@),
{
    let mut lines: Vec<String> = Vec::new();
    let mut start: usize = 0;
    let mut i: usize = 0;
    let n = text.len();
    while i < n
        invariant
            n == text@.len(),
            start <= i <= n,
            forall|k: int| start <= k < i ==> text@[k] != '\n',
            start == 0 || text@[start - 1] == '\n',
            string_views(lines@) == scan_lines(text@.take(i as int)).0,
        decreases n - i,
    {
        let ghost prev = text@.take(i as int);
        assert(text@.take(i + 1).drop_last() =~= prev);
        if text[i] == '\n' {
            proof {
                lemma_scan_open(text@, i as int, start as int);
            }
            let end = if i > start && text[i - 1] == '\r' {
                i - 1
            } else {
                i
            };
            let line = string_from_chars(text, start, end);
            assert(line@ =~= strip_cr(text@.subrange(start as int, i as int)));
            lines.push(line);
            assert(string_views(lines@) =~= scan_lines(text@.take(i + 1)).0);
            start = i + 1;
        } else {
            assert(string_views(lines@) =~= scan_lines(text@.take(i + 1)).0);
        }
        i += 1;
    }
    proof {
        lemma_scan_open(text@, n as int, start as int);
        assert(text@.take(n as int) =~= text@);
    }
    if start < n {
        let line = string_from_chars(text, start, n);
        lines.push(line);
        assert(string_views(lines@) =~= lines_of(text@));
    } else {
        assert(text@.subrange(start as int, n as int) =~= Seq::<char>::empty());
    }
    lines
}

/// The lines joined with `'\n'` between them (`join("\n")`).
pub open spec fn join_lines(lines: Seq<Seq<char>>) -> Seq<char>
    decreases lines.len(),
{
    if lines.len() == 0 {
        seq![]
    } else if lines.len() == 1 {
        lines[0]
    } else {
        join_lines(lines.drop_last()) + seq!['\n'] + lines.last()
    }
}

/// No carriage return in `s`.
pub open spec fn no_carriage_return(s: Seq<char>) -> bool {
    forall|i: int| 0 <= i < s.len() ==> s[i] != '\r'
}

/// Joining the `'\n'`-separated pieces of a text gives the text back.
proof fn lemma_join_scan(s: Seq<char>)
    requires
        no_carriage_return(s),
    ensures
        join_lines(scan_lines(s).0.push(scan_lines(s).1)) == s,
        no_carriage_return(scan_lines(s).1),
    decreases s.len(),
{
    if s.len() > 0 {
        let p = s.drop_last();
        assert(no_carriage_return(p));
        lemma_join_scan(p);
        let (done, open) = scan_lines(p);
        let c = s.last();
        assert(s =~= p.push(c));
        if c == '\n' {
            assert(strip_cr(open) == open);
            let d2 = done.push(open);
            assert(d2.push(seq![]).drop_last() =~= d2);
            assert(join_lines(d2.push(seq![])) =~= join_lines(d2) + seq!['\n']);
        } else {
            let a = done.push(open.push(c));
            assert(a.drop_last() =~= done);
            if done.len() == 0 {
                assert(join_lines(done.push(open)) == open);
                assert(join_lines(a) == open.push(c));
            } else {
                assert(done.push(open).drop_last() =~= done);
                assert(join_lines(a) =~= (join_lines(done) + seq!['\n'] + open).push(c));
            }
            assert(no_carriage_return(open.push(c)));
        }
    }
}

/// Splitting a text into lines and joining them again, with a final newline
/// where the text had one, gives the text back, for a text without carriage
/// returns other than the text made of a single newline.
pub proof fn law_lines_round_trip(s: Seq<char>)
    requires
        no_carriage_return(s),
        s != seq!['\n'],
    ensures
        ({
            let j = join_lines(lines_of(s));
            let trailing = s.len() > 0 && s.last() == '\n';
            (if trailing && j.len() > 0 {
                j.push('\n')
            } else {
                j
            }) == s
        }),
{
    lemma_join_scan(s);
    let (done, open) = scan_lines(s);
    if s.len() > 0 {
        let p = s.drop_last();
        let (d0, o0) = scan_lines(p);
        if s.last() == '\n' {
            assert(done == d0.push(strip_cr(o0)));
            assert(open.len() == 0);
            assert(done.push(open).drop_last() =~= done);
            assert(join_lines(done.push(open)) =~= join_lines(done) + seq!['\n']);
            assert(join_lines(done) =~= p);
            if p.len() == 0 {
                assert(s =~= seq!['\n']);
            }
        } else {
            assert(open.len() > 0);
        }
    } else {
        assert(done.len() == 0);
    }
}

/// Joins lines with `'\n'` between them.
pub fn join_with_newlines(lines: &Vec<String>) -> (s: String)
    ensures
        s@ == join_lines(string_views(lines@)),
{
    let mut s = String::new();
    let mut i: usize = 0;
    while i < lines.len()
        invariant
            i <= lines@.len(),
            s@ == join_lines(string_views(lines@).take(i as int)),
        decreases lines@.len() - i,
    {
        let ghost prev = string_views(lines@).take(i as int);
        if i > 0 {
            push_char(&mut s, '\n');
        }
        s.append(lines[i].as_str());
        assert(string_views(lines@).take(i + 1).drop_last() =~= prev);
        i += 1;
    }
    assert(string_views(lines@).take(lines@.len() as int) =~= string_views(lines@));
    s
}

// ---------------------------------------------------------------------------
// Whitespace, trimming, words
// ---------------------------------------------------------------------------

/// The characters with the Unicode `White_Space` property (`char::is_whitespace`).
pub open spec fn is_white_space(c: char) -> bool {
    let u = c as u32;
    ||| 9 <= u <= 13
    ||| u == 32
    ||| u == 0x85
    ||| u == 0xA0
    ||| u == 0x1680
    ||| 0x2000 <= u <= 0x200A
    ||| u == 0x2028
    ||| u == 0x2029
    ||| u == 0x202F
    ||| u == 0x205F
    ||| u == 0x3000
}

/// Whether `c` is white space.
pub fn white_space(c: char) -> (b: bool)
    ensures
        b == is_white_space(c),
{
    let u = c as u32;
    (9 <= u && u <= 13) || u == 32 || u == 0x85 || u == 0xA0 || u == 0x1680 || (0x2000 <= u && u
        <= 0x200A) || u == 0x2028 || u == 0x2029 || u == 0x202F || u == 0x205F || u == 0x3000
}

/// `s` without its leading white space.
pub open spec fn trim_start_ws(s: Seq<char>) -> Seq<char>
    decreases s.len(),
{
    if s.len() > 0 && is_white_space(s[0]) {
        trim_start_ws(s.drop_first())
    } else {
        s
    }
}

/// `s` without its trailing white space.
pub open spec fn trim_end_ws(s: Seq<char>) -> Seq<char>
    decreases s.len(),
{
    if s.len() > 0 && is_white_space(s.last()) {
        trim_end_ws(s.drop_last())
    } else {
        s
    }
}

/// `s` without leading and trailing white space (`str::trim`).
pub open spec fn trim_ws(s: Seq<char>) -> Seq<char> {
    trim_end_ws(trim_start_ws(s))
}

/// `s` with every leading `"@@"` removed (`trim_start_matches("@@")`).
pub open spec fn strip_hunk_marks(s: Seq<char>) -> Seq<char>
    decreases s.len(),
{
    if s.len() >= 2 && s[0] == '@' && s[1] == '@' {
        strip_hunk_marks(s.skip(2))
    } else {
        s
    }
}

/// `s` with every leading `'-'` and `'+'` removed (`trim_start_matches(['-', '+'])`).
pub open spec fn strip_signs(s: Seq<char>) -> Seq<char>
    decreases s.len(),
{
    if s.len() > 0 && (s[0] == '-' || s[0] == '+') {
        strip_signs(s.drop_first())
    } else {
        s
    }
}

/// Scanning `s` from the left: the words completed so far and the open word.
pub open spec fn scan_words(s: Seq<char>) -> (Seq<Seq<char>>, Seq<char>)
    decreases s.len(),
{
    if s.len() == 0 {
        (seq![], seq![])
    } else {
        let (done, open) = scan_words(s.drop_last());
        if is_white_space(s.last()) {
            if open.len() > 0 {
                (done.push(open), seq![])
            } else {
                (done, seq![])
            }
        } else {
            (done, open.push(s.last()))
        }
    }
}

/// The maximal runs of non-white-space characters of `s` (`split_whitespace`).
pub open spec fn words_of(s: Seq<char>) -> Seq<Seq<char>> {
    let (done, open) = scan_words(s);
    if open.len() == 0 {
        done
    } else {
        done.push(open)
    }
}

/// No white space in `w`.
pub open spec fn no_white_space(w: Seq<char>) -> bool {
    forall|i: int| 0 <= i < w.len() ==> !is_white_space(w[i])
}

/// Appending characters other than white space extends the open word.
pub proof fn lemma_scan_words_word(p: Seq<char>, w: Seq<char>)
    requires
        no_white_space(w),
    ensures
        scan_words(p + w) == (scan_words(p).0, scan_words(p).1 + w),
    decreases w.len(),
{
    if w.len() == 0 {
        assert(p + w =~= p);
        assert(scan_words(p).1 + w =~= scan_words(p).1);
    } else {
        let w0 = w.drop_last();
        assert(no_white_space(w0));
        lemma_scan_words_word(p, w0);
        assert((p + w).drop_last() =~= p + w0);
        assert((p + w).last() == w.last());
        assert(!is_white_space(w[w.len() - 1]));
        assert(scan_words(p).1 + w =~= (scan_words(p).1 + w0).push(w.last()));
    }
}

/// A white-space character closes the open word.
pub proof fn lemma_scan_words_space(p: Seq<char>, c: char)
    requires
        is_white_space(c),
    ensures
        scan_words(p.push(c)) == (if scan_words(p).1.len() > 0 {
            (scan_words(p).0.push(scan_words(p).1), Seq::<char>::empty())
        } else {
            (scan_words(p).0, Seq::<char>::empty())
        }),
{
    assert(p.push(c).drop_last() =~= p);
}

/// Moves `lo` past a prefix of `v[lo..hi]` removed by `trim_start_ws`.
pub fn skip_leading_ws(v: &Vec<char>, lo: usize, hi: usize) -> (r: usize)
    requires
        lo <= hi <= v@.len(),
    ensures
        lo <= r <= hi,
        v@.subrange(r as int, hi as int) == trim_start_ws(v@.subrange(lo as int, hi as int)),
{
    let mut i = lo;
    while i < hi && white_space(v[i])
        invariant
            lo <= i <= hi <= v@.len(),
            trim_start_ws(v@.subrange(i as int, hi as int)) == trim_start_ws(
                v@.subrange(lo as int, hi as int),
            ),
        decreases hi - i,
    {
        assert(v@.subrange(i as int, hi as int).drop_first() =~= v@.subrange(i + 1, hi as int));
        i += 1;
    }
    i
}

/// Moves `hi` before a suffix of `v[lo..hi]` removed by `trim_end_ws`.
pub fn skip_trailing_ws(v: &Vec<char>, lo: usize, hi: usize) -> (r: usize)
    requires
        lo <= hi <= v@.len(),
    ensures
        lo <= r <= hi,
        v@.subrange(lo as int, r as int) == trim_end_ws(v@.subrange(lo as int, hi as int)),
{
    let mut j = hi;
    while j > lo && white_space(v[j - 1])
        invariant
            lo <= j <= hi <= v@.len(),
            trim_end_ws(v@.subrange(lo as int, j as int)) == trim_end_ws(
                v@.subrange(lo as int, hi as int),
            ),
        decreases j - lo,
    {
        assert(v@.subrange(lo as int, j as int).drop_last() =~= v@.subrange(lo as int, j - 1));
        j -= 1;
    }
    j
}

/// Moves `lo` past the leading `"@@"` marks of `v[lo..hi]`.
pub fn skip_hunk_marks(v: &Vec<char>, lo: usize, hi: usize) -> (r: usize)
    requires
        lo <= hi <= v@.len(),
    ensures
        lo <= r <= hi,
        v@.subrange(r as int, hi as int) == strip_hunk_marks(v@.subrange(lo as int, hi as int)),
{
    let mut i = lo;
    while hi - i >= 2 && v[i] == '@' && v[i + 1] == '@'
        invariant
            lo <= i <= hi <= v@.len(),
            strip_hunk_marks(v@.subrange(i as int, hi as int)) == strip_hunk_marks(
                v@.subrange(lo as int, hi as int),
            ),
        decreases hi - i,
    {
        assert(v@.subrange(i as int, hi as int).skip(2) =~= v@.subrange(i + 2, hi as int));
        i += 2;
    }
    i
}

/// Moves `lo` past the leading signs of `v[lo..hi]`.
pub fn skip_signs(v: &Vec<char>, lo: usize, hi: usize) -> (r: usize)
    requires
        lo <= hi <= v@.len(),
    ensures
        lo <= r <= hi,
        v@.subrange(r as int, hi as int) == strip_signs(v@.subrange(lo as int, hi as int)),
{
    let mut i = lo;
    while i < hi && (v[i] == '-' || v[i] == '+')
        invariant
            lo <= i <= hi <= v@.len(),
            strip_signs(v@.subrange(i as int, hi as int)) == strip_signs(
                v@.subrange(lo as int, hi as int),
            ),
        decreases hi - i,
    {
        assert(v@.subrange(i as int, hi as int).drop_first() =~= v@.subrange(i + 1, hi as int));
        i += 1;
    }
    i
}

/// A fresh vector holding `v[lo..hi]`.
pub fn sub_vec(v: &Vec<char>, lo: usize, hi: usize) -> (r: Vec<char>)
    requires
        lo <= hi <= v@.len(),
    ensures
        r@ == v@.subrange(lo as int, hi as int),
{
    let mut r: Vec<char> = Vec::new();
    let mut i = lo;
    while i < hi
        invariant
            lo <= i <= hi <= v@.len(),
            r@ == v@.subrange(lo as int, i as int),
        decreases hi - i,
    {
        r.push(v[i]);
        assert(r@ =~= v@.subrange(lo as int, i + 1));
        i += 1;
    }
    r
}

/// The open word of `scan_words(s.take(i))` is the text since the last white space.
proof fn lemma_scan_words_open(s: Seq<char>, i: int, start: int)
    requires
        0 <= start <= i <= s.len(),
        forall|k: int| start <= k < i ==> !is_white_space(s[k]),
        start == 0 || is_white_space(s[start - 1]),
    ensures
        scan_words(s.take(i)).1 == s.subrange(start, i),
    decreases i,
{
    if i == start {
        if start > 0 {
            assert(s.take(i).drop_last() =~= s.take(i - 1));
        }
        assert(s.subrange(start, i) =~= Seq::<char>::empty());
    } else {
        lemma_scan_words_open(s, i - 1, start);
        assert(s.take(i).drop_last() =~= s.take(i - 1));
        assert(s.subrange(start, i) =~= s.subrange(start, i - 1).push(s[i - 1]));
    }
}

/// The words of `bounds` cut out of `s`.
pub open spec fn cut_words(s: Seq<char>, bounds: Seq<(usize, usize)>) -> Seq<Seq<char>> {
    Seq::new(bounds.len(), |k: int| s.subrange(bounds[k].0 as int, bounds[k].1 as int))
}

/// Where the words of `v` start and end (`split_whitespace`).
pub fn word_bounds(v: &Vec<char>) -> (bounds: Vec<(usize, usize)>)
    ensures
        forall|k: int|
            #![trigger bounds@[k]]
            0 <= k < bounds@.len() ==> bounds@[k].0 <= bounds@[k].1 <= v@.len(),
        cut_words(v@, bounds@) == words_of(v@),
{
    let mut bounds: Vec<(usize, usize)> = Vec::new();
    let mut start: usize = 0;
    let mut i: usize = 0;
    let n = v.len();
    while i < n
        invariant
            n == v@.len(),
            start <= i <= n,
            forall|k: int| start <= k < i ==> !is_white_space(v@[k]),
            start == 0 || is_white_space(v@[start - 1]),
            forall|k: int|
                #![trigger bounds@[k]]
                0 <= k < bounds@.len() ==> bounds@[k].0 <= bounds@[k].1 <= n,
            cut_words(v@, bounds@) == scan_words(v@.take(i as int)).0,
        decreases n - i,
    {
        assert(v@.take(i + 1).drop_last() =~= v@.take(i as int));
        proof {
            lemma_scan_words_open(v@, i as int, start as int);
        }
        if white_space(v[i]) {
            if start < i {
                bounds.push((start, i));
            }
            assert(cut_words(v@, bounds@) =~= scan_words(v@.take(i + 1)).0);
            start = i + 1;
        } else {
            assert(cut_words(v@, bounds@) =~= scan_words(v@.take(i + 1)).0);
        }
        i += 1;
    }
    proof {
        lemma_scan_words_open(v@, n as int, start as int);
        assert(v@.take(n as int) =~= v@);
    }
    if start < n {
        bounds.push((start, n));
        assert(cut_words(v@, bounds@) =~= words_of(v@));
    } else {
        assert(v@.subrange(start as int, n as int) =~= Seq::<char>::empty());
    }
    bounds
}

// ---------------------------------------------------------------------------
// Decimal numbers
// ---------------------------------------------------------------------------

/// An ASCII decimal digit.
pub open spec fn is_digit(c: char) -> bool {
    48 <= (c as u32) <= 57
}

/// The value of an ASCII decimal digit.
pub open spec fn digit_value(c: char) -> nat {
    ((c as u32) - 48) as nat
}

/// Every character of `s` is an ASCII decimal digit.
pub open spec fn all_digits(s: Seq<char>) -> bool {
    forall|i: int| 0 <= i < s.len() ==> is_digit(#[trigger] s[i])
}

/// The value of a string of decimal digits.
pub open spec fn digits_value(s: Seq<char>) -> nat
    decreases s.len(),
{
    if s.len() == 0 {
        0
    } else {
        digits_value(s.drop_last()) * 10 + digit_value(s.last())
    }
}

/// What `str::parse::<usize>` gives: an optional `'+'`, then at least one
/// decimal digit, with a value that fits in a `usize`.
pub open spec fn parse_usize_spec(s: Seq<char>) -> Option<usize> {
    let d = if s.len() > 0 && s[0] == '+' {
        s.drop_first()
    } else {
        s
    };
    if d.len() > 0 && all_digits(d) && digits_value(d) <= usize::MAX {
        Some(digits_value(d) as usize)
    } else {
        None
    }
}

/// A longer run of digits is worth at least as much as its prefix.
proof fn lemma_digits_value_prefix(s: Seq<char>, k: int)
    requires
        0 <= k <= s.len(),
    ensures
        digits_value(s.take(k)) <= digits_value(s),
    decreases s.len() - k,
{
    if k < s.len() {
        lemma_digits_value_prefix(s, k + 1);
        assert(s.take(k + 1).drop_last() =~= s.take(k));
    } else {
        assert(s.take(k) =~= s);
    }
}

/// Parses `v[lo..hi]` as a `usize` (`str::parse::<usize>`).
pub fn parse_usize(v: &Vec<char>, lo: usize, hi: usize) -> (r: Option<usize>)
    requires
        lo <= hi <= v@.len(),
    ensures
        r == parse_usize_spec(v@.subrange(lo as int, hi as int)),
{
    let ghost s = v@.subrange(lo as int, hi as int);
    let start = if lo < hi && v[lo] == '+' {
        lo + 1
    } else {
        lo
    };
    let ghost d = v@.subrange(start as int, hi as int);
    assert(d == (if s.len() > 0 && s[0] == '+' {
        s.drop_first()
    } else {
        s
    })) by {
        if s.len() > 0 && s[0] == '+' {
            assert(d =~= s.drop_first());
        } else {
            assert(d =~= s);
        }
    }
    if start == hi {
        return None;
    }
    let mut value: usize = 0;
    let mut i = start;
    while i < hi
        invariant
            start <= i <= hi <= v@.len(),
            d == v@.subrange(start as int, hi as int),
            s == v@.subrange(lo as int, hi as int),
            d == (if s.len() > 0 && s[0] == '+' {
                s.drop_first()
            } else {
                s
            }),
            d.len() > 0,
            all_digits(d.take(i - start)),
            value == digits_value(d.take(i - start)),
        decreases hi - i,
    {
        let c = v[i];
        let u = c as u32;
        assert(d[i - start] == c);
        assert(d.take(i - start + 1).drop_last() =~= d.take(i - start));
        if u < 48 || u > 57 {
            assert(!all_digits(d)) by {
                assert(!is_digit(d[i - start]));
            }
            return None;
        }
        let digit = (u - 48) as usize;
        assert(digits_value(d.take(i - start + 1)) == value * 10 + digit) by {
            assert(d.take(i - start + 1).last() == c);
        }
        if value > (usize::MAX - digit) / 10 {
            proof {
                lemma_digits_value_prefix(d, i - start + 1);
            }
            assert(digits_value(d.take(i - start + 1)) > usize::MAX) by (nonlinear_arith)
                requires
                    value > (usize::MAX - digit) / 10,
                    digits_value(d.take(i - start + 1)) == value * 10 + digit,
                    digit <= 9,
            ;
            return None;
        }
        assert(value * 10 + digit <= usize::MAX) by (nonlinear_arith)
            requires
                value <= (usize::MAX - digit) / 10,
                digit <= 9,
        ;
        value = value * 10 + digit;
        i += 1;
    }
    assert(d.take(hi - start) =~= d);
    Some(value)
}

/// The digit character for a value below ten.
pub open spec fn digit_char(d: nat) -> char {
    ((d + 48) as u32) as char
}

/// The decimal representation of `n`, without leading zeros.
pub open spec fn decimal(n: nat) -> Seq<char>
    decreases n,
{
    if n < 10 {
        seq![digit_char(n)]
    } else {
        decimal(n / 10).push(digit_char(n % 10))
    }
}

/// Appends the decimal representation of `n`.
pub fn push_decimal(s: &mut String, n: usize)
    ensures
        final(s)@ == old(s)@ + decimal(n as nat),
    decreases n,
{
    if n >= 10 {
        push_decimal(s, n / 10);
    }
    let d = (n % 10) as u8;
    let c = (d + 48) as char;
    assert(c == digit_char((n % 10) as nat));
    push_char(s, c);
    proof {
        if n >= 10 {
            assert(decimal(n as nat) == decimal((n / 10) as nat).push(digit_char((n % 10) as nat)));
        }
    }
    assert(s@ =~= old(s)@ + decimal(n as nat));
}

/// Reading back a decimal representation gives the number.
pub proof fn lemma_decimal_parses(n: nat)
    ensures
        decimal(n).len() > 0,
        all_digits(decimal(n)),
        digits_value(decimal(n)) == n,
        decimal(n)[0] != '+',
    decreases n,
{
    if n >= 10 {
        lemma_decimal_parses(n / 10);
        let d = decimal(n / 10);
        assert(decimal(n).drop_last() =~= d);
        assert(decimal(n)[0] == d[0]);
    } else {
        assert(digits_value(decimal(n)) == digits_value(decimal(n).drop_last()) * 10 + digit_value(decimal(n).last()));
        assert(decimal(n).drop_last() =~= Seq::<char>::empty());
    }
}

} // verus!
