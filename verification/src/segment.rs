//! The paragraph segmenter: splits a statute's raw body text into ordered
//! paragraphs at delimiter markers, and prefixes each paragraph with its
//! 0-based index.
//!
//! A delimiter starts at a line start, with a newline character, followed by
//! a run of digits and whitespace, closed by a section sign (`§`). Splitting
//! is leftmost-first: the earliest delimiter wins, and scanning resumes right
//! after the section sign. A text with no delimiter yields exactly one
//! segment, the whole text.
use vstd::prelude::*;

use crate::text::dec_digits;
use crate::text::digit_end;
use crate::text::filler_char;
use crate::text::is_digit_char;
use crate::text::is_filler_char;
use crate::text::lemma_digit_end_exact;
use crate::text::lemma_dec_digits_are_digits;
use crate::text::lemma_parse_dec_digits;
use crate::text::lemma_strip_char_len;
use crate::text::parse_dec;
use crate::text::strip_char;
use crate::text::strip_char_vec;
use crate::text::str_chars;
use crate::text::chars_string;
use crate::text::dec_chars_u64;

verus! {

/// The first position at or after `k` that does not hold a digit or
/// whitespace character (or the end of the text).
pub open spec fn filler_end(s: Seq<char>, k: int) -> int
    decreases s.len() - k,
    when 0 <= k <= s.len()
{
    if k < s.len() && is_filler_char(s[k]) {
        filler_end(s, k + 1)
    } else {
        k
    }
}

pub proof fn lemma_filler_end_bounds(s: Seq<char>, k: int)
    requires
        0 <= k <= s.len(),
    ensures
        k <= filler_end(s, k) <= s.len(),
    decreases s.len() - k,
{
    if k < s.len() && is_filler_char(s[k]) {
        lemma_filler_end_bounds(s, k + 1);
    }
}

/// A paragraph delimiter starts at `i`: a newline, then a run of digits and
/// whitespace, closed by a section sign. (Whether `i` is a line start is the
/// scanner's concern, not this predicate's.)
pub open spec fn delim_at(s: Seq<char>, i: int) -> bool {
    &&& 0 <= i < s.len()
    &&& s[i] == '\n'
    &&& filler_end(s, i + 1) < s.len()
    &&& s[filler_end(s, i + 1)] == '§'
}

/// The position just past the section sign of the delimiter starting at `i`.
pub open spec fn delim_end(s: Seq<char>, i: int) -> int {
    filler_end(s, i + 1) + 1
}

/// The segments of `s` from position `i` on: `line_start` says whether `i`
/// sits at the start of a line, `seg_start` is where the current segment
/// began. A delimiter closes the current segment and opens the next one just
/// past its section sign.
pub open spec fn split_rec(s: Seq<char>, i: int, line_start: bool, seg_start: int) -> Seq<
    Seq<char>,
>
    decreases s.len() - i,
    when 0 <= seg_start && 0 <= i <= s.len()
{
    if i >= s.len() {
        seq![s.subrange(seg_start, s.len() as int)]
    } else if line_start && delim_at(s, i) {
        proof {
            lemma_filler_end_bounds(s, i + 1);
        }
        seq![s.subrange(seg_start, i)] + split_rec(s, delim_end(s, i), false, delim_end(s, i))
    } else {
        split_rec(s, i + 1, s[i] == '\n', seg_start)
    }
}

/// The segments of `s`, split at every paragraph delimiter.
pub open spec fn split_text(s: Seq<char>) -> Seq<Seq<char>> {
    split_rec(s, 0, true, 0)
}

/// A split always yields at least one segment.
proof fn lemma_split_rec_nonempty(s: Seq<char>, i: int, line_start: bool, seg_start: int)
    requires
        0 <= seg_start,
        0 <= i <= s.len(),
    ensures
        split_rec(s, i, line_start, seg_start).len() >= 1,
    decreases s.len() - i,
{
    if i >= s.len() {
    } else if line_start && delim_at(s, i) {
        lemma_filler_end_bounds(s, i + 1);
        lemma_split_rec_nonempty(s, delim_end(s, i), false, delim_end(s, i));
    } else {
        lemma_split_rec_nonempty(s, i + 1, s[i] == '\n', seg_start);
    }
}

/// The views of a list of character vectors.
pub open spec fn char_views(parts: Seq<Vec<char>>) -> Seq<Seq<char>> {
    parts.map_values(|p: Vec<char>| p@)
}

/// The views of a list of strings.
pub open spec fn string_views(parts: Seq<String>) -> Seq<Seq<char>> {
    parts.map_values(|p: String| p@)
}

/// First position at or after `k` that holds no digit or whitespace.
fn filler_end_vec(v: &Vec<char>, k: usize) -> (r: usize)
    requires
        k <= v.len(),
    ensures
        r as int == filler_end(v@, k as int),
        k <= r <= v.len(),
{
    let mut j: usize = k;
    while j < v.len() && filler_char(v[j])
        invariant
            k <= j <= v.len(),
            filler_end(v@, k as int) == filler_end(v@, j as int),
        decreases v.len() - j,
    {
        j += 1;
    }
    proof {
        lemma_filler_end_bounds(v@, j as int);
    }
    j
}

/// If a paragraph delimiter starts at `i`, its end; otherwise `None`.
fn delim_end_at(v: &Vec<char>, i: usize) -> (r: Option<usize>)
    requires
        i < v.len(),
    ensures
        match r {
            Some(e) => delim_at(v@, i as int) && e as int == delim_end(v@, i as int) && i < e
                <= v.len(),
            None => !delim_at(v@, i as int),
        },
{
    if v[i] == '\n' {
        let j = filler_end_vec(v, i + 1);
        if j < v.len() && v[j] == '§' {
            Some(j + 1)
        } else {
            None
        }
    } else {
        None
    }
}

/// Copies `v[a..b]`.
fn copy_range(v: &Vec<char>, a: usize, b: usize) -> (r: Vec<char>)
    requires
        a <= b <= v.len(),
    ensures
        r@ == v@.subrange(a as int, b as int),
{
    let mut r: Vec<char> = Vec::new();
    let mut i: usize = a;
    while i < b
        invariant
            a <= i <= b <= v.len(),
            r@ == v@.subrange(a as int, i as int),
        decreases b - i,
    {
        r.push(v[i]);
        proof {
            assert(v@.subrange(a as int, i + 1) =~= v@.subrange(a as int, i as int).push(
                v@[i as int],
            ));
        }
        i += 1;
    }
    r
}

/// Splits `v` at every paragraph delimiter, leftmost first.
pub fn split_text_vec(v: &Vec<char>) -> (r: Vec<Vec<char>>)
    ensures
        char_views(r@) == split_text(v@),
{
    let ghost s = v@;
    let mut segs: Vec<Vec<char>> = Vec::new();
    let mut i: usize = 0;
    let mut seg_start: usize = 0;
    let mut line_start: bool = true;
    proof {
        assert(char_views(segs@) =~= Seq::<Seq<char>>::empty());
        assert(char_views(segs@) + split_rec(s, 0, true, 0) =~= split_rec(s, 0, true, 0));
    }
    while i < v.len()
        invariant
            seg_start <= i <= v.len(),
            s == v@,
            split_text(s) == char_views(segs@) + split_rec(
                s,
                i as int,
                line_start,
                seg_start as int,
            ),
        decreases v.len() - i,
    {
        let ghost old_views = char_views(segs@);
        match delim_end_at(v, i) {
            Some(e) if line_start => {
                let seg = copy_range(v, seg_start, i);
                segs.push(seg);
                proof {
                    assert(char_views(segs@) =~= old_views.push(seg@));
                    assert(split_rec(s, i as int, line_start, seg_start as int) == seq![
                        s.subrange(seg_start as int, i as int),
                    ] + split_rec(s, e as int, false, e as int));
                    assert(char_views(segs@) + split_rec(s, e as int, false, e as int)
                        =~= old_views + (seq![s.subrange(seg_start as int, i as int)] + split_rec(
                        s,
                        e as int,
                        false,
                        e as int,
                    )));
                }
                seg_start = e;
                i = e;
                line_start = false;
            },
            _ => {
                proof {
                    assert(split_rec(s, i as int, line_start, seg_start as int) == split_rec(
                        s,
                        i + 1,
                        s[i as int] == '\n',
                        seg_start as int,
                    ));
                }
                line_start = v[i] == '\n';
                i += 1;
            },
        }
    }
    let last = copy_range(v, seg_start, v.len());
    let ghost old_views = char_views(segs@);
    segs.push(last);
    proof {
        assert(split_rec(s, v@.len() as int, line_start, seg_start as int) == seq![
            s.subrange(seg_start as int, s.len() as int),
        ]);
        assert(char_views(segs@) =~= old_views.push(last@));
        assert(char_views(segs@) =~= split_text(s));
    }
    segs
}

/// The stored text of the paragraph with index `idx` and raw segment `seg`:
/// the decimal index, a space, the section sign, then the segment with its
/// newlines removed.
pub open spec fn paragraph_text(idx: nat, seg: Seq<char>) -> Seq<char> {
    dec_digits(idx) + seq![' ', '§'] + strip_char(seg, '\n')
}

/// The ordered paragraphs of a raw body text: tabs are removed, the text is
/// split at every delimiter, and each segment becomes one paragraph carrying
/// its 0-based position.
pub open spec fn segment_paragraphs(raw: Seq<char>) -> Seq<Seq<char>> {
    let parts = split_text(strip_char(raw, '\t'));
    Seq::new(parts.len(), |i: int| paragraph_text(i as nat, parts[i]))
}

/// Builds the stored text of one paragraph.
fn build_paragraph(idx: u64, seg: &Vec<char>) -> (r: String)
    ensures
        r@ == paragraph_text(idx as nat, seg@),
{
    let mut v = dec_chars_u64(idx);
    v.push(' ');
    v.push('§');
    let body = strip_char_vec(seg, '\n');
    let ghost head = dec_digits(idx as nat) + seq![' ', '§'];
    proof {
        assert(v@ =~= head);
    }
    let mut k: usize = 0;
    while k < body.len()
        invariant
            k <= body.len(),
            body@ == strip_char(seg@, '\n'),
            v@ == head + body@.subrange(0, k as int),
        decreases body.len() - k,
    {
        v.push(body[k]);
        proof {
            assert(head + body@.subrange(0, k + 1) =~= (head + body@.subrange(0, k as int)).push(
                body@[k as int],
            ));
        }
        k += 1;
    }
    proof {
        assert(body@.subrange(0, body@.len() as int) =~= body@);
        assert(v@ =~= paragraph_text(idx as nat, seg@));
    }
    chars_string(&v)
}

/// The index a stored paragraph text claims for itself: the decimal number
/// before its `" §"` marker, or `None` where no such marker leads the text.
pub open spec fn paragraph_number(p: Seq<char>) -> Option<nat> {
    let d = digit_end(p, 0);
    if 1 <= d && d + 2 <= p.len() && p[d] == ' ' && p[d + 1] == '§' {
        Some(parse_dec(p.subrange(0, d)))
    } else {
        None
    }
}

/// Index density: the paragraphs of any raw text number themselves exactly
/// `0..n-1`, in order, with no gap and no repetition — paragraph `i` carries
/// number `i`.
pub proof fn lemma_index_density(raw: Seq<char>)
    ensures
        forall|i: int|
            0 <= i < segment_paragraphs(raw).len() ==> paragraph_number(
                #[trigger] segment_paragraphs(raw)[i],
            ) == Some(i as nat),
{
    let paras = segment_paragraphs(raw);
    assert forall|i: int| 0 <= i < paras.len() implies paragraph_number(paras[i]) == Some(
        i as nat,
    ) by {
        let parts = split_text(strip_char(raw, '\t'));
        let p = paras[i];
        assert(p == paragraph_text(i as nat, parts[i]));
        let ds = dec_digits(i as nat);
        lemma_dec_digits_are_digits(i as nat);
        assert(forall|j: int| 0 <= j < ds.len() ==> is_digit_char(#[trigger] p[j]));
        assert(p[ds.len() as int] == ' ');
        assert(!is_digit_char(' '));
        lemma_digit_end_exact(p, 0, ds.len() as int);
        assert(p[ds.len() as int + 1] == '§');
        assert(p.subrange(0, ds.len() as int) =~= ds);
        lemma_parse_dec_digits(i as nat);
    }
}

/// A raw text, however formed, yields at least one paragraph.
pub proof fn lemma_segment_nonempty(raw: Seq<char>)
    ensures
        segment_paragraphs(raw).len() >= 1,
{
    lemma_split_rec_nonempty(strip_char(raw, '\t'), 0, true, 0);
}

proof fn lemma_split_rec_no_delim(s: Seq<char>, i: int, line_start: bool, seg_start: int)
    requires
        0 <= seg_start,
        0 <= i <= s.len(),
        forall|k: int| !delim_at(s, k),
    ensures
        split_rec(s, i, line_start, seg_start) == seq![s.subrange(seg_start, s.len() as int)],
    decreases s.len() - i,
{
    if i < s.len() {
        assert(!delim_at(s, i));
        lemma_split_rec_no_delim(s, i + 1, s[i] == '\n', seg_start);
    }
}

/// The no-delimiter edge case: a text in which no paragraph delimiter
/// occurs becomes exactly one paragraph — the whole text, under index zero.
pub proof fn lemma_no_delimiter_single_paragraph(raw: Seq<char>)
    requires
        forall|k: int| !delim_at(strip_char(raw, '\t'), k),
    ensures
        segment_paragraphs(raw).len() == 1,
        segment_paragraphs(raw)[0] == paragraph_text(0, strip_char(raw, '\t')),
{
    let s = strip_char(raw, '\t');
    lemma_split_rec_no_delim(s, 0, true, 0);
    assert(s.subrange(0, s.len() as int) =~= s);
}

/// Segmentation determinism: the paragraph list is a pure function of the
/// raw text, so two runs over the same raw document agree exactly.
pub proof fn lemma_segment_deterministic(
    raw: Seq<char>,
    first: Seq<Seq<char>>,
    second: Seq<Seq<char>>,
)
    requires
        first == segment_paragraphs(raw),
        second == segment_paragraphs(raw),
    ensures
        first == second,
{
}

/// The cleaned full text of a raw body: tabs and newlines removed.
pub open spec fn full_text_of(raw: Seq<char>) -> Seq<char> {
    strip_char(strip_char(raw, '\t'), '\n')
}

/// Length bound: cleaning only removes characters, so the full text is never
/// longer than the raw text it came from.
pub proof fn lemma_full_text_len(raw: Seq<char>)
    ensures
        full_text_of(raw).len() <= raw.len(),
{
    lemma_strip_char_len(raw, '\t');
    lemma_strip_char_len(strip_char(raw, '\t'), '\n');
}

/// Removes every tab and newline of a raw body text.
pub fn clean_full_text(raw: &str) -> (r: String)
    ensures
        r@ == full_text_of(raw@),
        r@.len() <= raw@.len(),
{
    let chars = str_chars(raw);
    let no_tabs = strip_char_vec(&chars, '\t');
    let cleaned = strip_char_vec(&no_tabs, '\n');
    proof {
        lemma_full_text_len(raw@);
    }
    chars_string(&cleaned)
}

/// Splits a raw body text into its ordered, index-prefixed paragraphs.
pub fn segment_text(raw: &str) -> (r: Vec<String>)
    ensures
        string_views(r@) == segment_paragraphs(raw@),
{
    let chars = str_chars(raw);
    let stripped = strip_char_vec(&chars, '\t');
    let parts = split_text_vec(&stripped);
    let ghost want = segment_paragraphs(raw@);
    proof {
        assert(char_views(parts@) == split_text(strip_char(raw@, '\t')));
        assert(want.len() == parts@.len());
    }
    let mut out: Vec<String> = Vec::new();
    let mut i: usize = 0;
    while i < parts.len()
        invariant
            i <= parts.len(),
            want == segment_paragraphs(raw@),
            want.len() == parts@.len(),
            char_views(parts@) == split_text(strip_char(raw@, '\t')),
            string_views(out@) == want.subrange(0, i as int),
        decreases parts.len() - i,
    {
        let p = build_paragraph(i as u64, &parts[i]);
        out.push(p);
        proof {
            assert(char_views(parts@)[i as int] == parts@[i as int]@);
            assert(want[i as int] == paragraph_text(i as nat, parts@[i as int]@));
            assert(string_views(out@) =~= want.subrange(0, i as int).push(want[i as int]));
            assert(want.subrange(0, i + 1) =~= want.subrange(0, i as int).push(want[i as int]));
        }
        i += 1;
    }
    proof {
        assert(want.subrange(0, want.len() as int) =~= want);
    }
    out
}

} // verus!
