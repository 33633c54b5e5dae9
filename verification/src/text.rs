//! Character-level text helpers shared by the segmenter, the law-identifier
//! matcher and the key builders: character classes, character removal,
//! end-trimming, and decimal rendering of numbers.
use vstd::prelude::*;

verus! {

/// An ASCII decimal digit.
pub open spec fn is_digit_char(c: char) -> bool {
    48 <= c as u32 && c as u32 <= 57
}

/// A whitespace character as the delimiter grammar understands it.
pub open spec fn is_space_char(c: char) -> bool {
    c == ' ' || c == '\t' || c == '\n' || c == '\r'
}

/// A character allowed between the newline and the section sign of a
/// paragraph delimiter: a digit or whitespace.
pub open spec fn is_filler_char(c: char) -> bool {
    is_digit_char(c) || is_space_char(c)
}

/// Runtime test for `is_digit_char`.
pub fn digit_char(c: char) -> (r: bool)
    ensures
        r == is_digit_char(c),
{
    let n = c as u32;
    48 <= n && n <= 57
}

/// Runtime test for `is_space_char`.
pub fn space_char(c: char) -> (r: bool)
    ensures
        r == is_space_char(c),
{
    c == ' ' || c == '\t' || c == '\n' || c == '\r'
}

/// Runtime test for `is_filler_char`.
pub fn filler_char(c: char) -> (r: bool)
    ensures
        r == is_filler_char(c),
{
    digit_char(c) || space_char(c)
}

/// `s` with every occurrence of `c` removed, order otherwise kept.
pub open spec fn strip_char(s: Seq<char>, c: char) -> Seq<char>
    decreases s.len(),
{
    if s.len() == 0 {
        Seq::empty()
    } else if s.last() == c {
        strip_char(s.drop_last(), c)
    } else {
        strip_char(s.drop_last(), c).push(s.last())
    }
}

/// Removing characters never lengthens a text.
pub proof fn lemma_strip_char_len(s: Seq<char>, c: char)
    ensures
        strip_char(s, c).len() <= s.len(),
    decreases s.len(),
{
    if s.len() > 0 {
        lemma_strip_char_len(s.drop_last(), c);
    }
}

/// No occurrence of the removed character survives.
pub proof fn lemma_strip_char_gone(s: Seq<char>, c: char)
    ensures
        forall|i: int| 0 <= i < strip_char(s, c).len() ==> #[trigger] strip_char(s, c)[i] != c,
    decreases s.len(),
{
    if s.len() > 0 {
        lemma_strip_char_gone(s.drop_last(), c);
        let t = strip_char(s.drop_last(), c);
        if s.last() != c {
            assert forall|i: int| 0 <= i < strip_char(s, c).len() implies #[trigger] strip_char(
                s,
                c,
            )[i] != c by {
                if i < t.len() {
                    assert(strip_char(s, c)[i] == t[i]);
                } else {
                    assert(strip_char(s, c)[i] == s.last());
                }
            }
        }
    }
}

/// Removing one character cannot introduce another: a character absent from
/// `s` is absent from `strip_char(s, d)` too.
pub proof fn lemma_strip_char_keeps_absent(s: Seq<char>, d: char, c: char)
    requires
        forall|i: int| 0 <= i < s.len() ==> #[trigger] s[i] != c,
    ensures
        forall|i: int| 0 <= i < strip_char(s, d).len() ==> #[trigger] strip_char(s, d)[i] != c,
    decreases s.len(),
{
    if s.len() > 0 {
        assert(forall|i: int|
            0 <= i < s.drop_last().len() ==> #[trigger] s.drop_last()[i] != c);
        lemma_strip_char_keeps_absent(s.drop_last(), d, c);
        let t = strip_char(s.drop_last(), d);
        if s.last() != d {
            assert forall|i: int| 0 <= i < strip_char(s, d).len() implies #[trigger] strip_char(
                s,
                d,
            )[i] != c by {
                if i < t.len() {
                    assert(strip_char(s, d)[i] == t[i]);
                } else {
                    assert(strip_char(s, d)[i] == s.last());
                    assert(s.last() == s[s.len() - 1]);
                }
            }
        }
    }
}

/// Removes every occurrence of `c` from `v`.
pub fn strip_char_vec(v: &Vec<char>, c: char) -> (r: Vec<char>)
    ensures
        r@ == strip_char(v@, c),
{
    let mut r: Vec<char> = Vec::new();
    let mut i: usize = 0;
    while i < v.len()
        invariant
            i <= v.len(),
            r@ == strip_char(v@.subrange(0, i as int), c),
        decreases v.len() - i,
    {
        let ch = v[i];
        proof {
            assert(v@.subrange(0, i + 1).drop_last() =~= v@.subrange(0, i as int));
            assert(v@.subrange(0, i + 1).last() == v@[i as int]);
        }
        if ch != c {
            r.push(ch);
        }
        i += 1;
    }
    proof {
        assert(v@.subrange(0, v@.len() as int) =~= v@);
    }
    r
}

/// A character removed when trimming the ends of an extracted text node:
/// a tab or a newline.
pub open spec fn is_trim_char(c: char) -> bool {
    c == '\t' || c == '\n'
}

/// `s` without its leading run of tab/newline characters.
pub open spec fn trim_front(s: Seq<char>) -> Seq<char>
    decreases s.len(),
{
    if s.len() > 0 && is_trim_char(s.first()) {
        trim_front(s.drop_first())
    } else {
        s
    }
}

/// `s` without its trailing run of tab/newline characters.
pub open spec fn trim_back(s: Seq<char>) -> Seq<char>
    decreases s.len(),
{
    if s.len() > 0 && is_trim_char(s.last()) {
        trim_back(s.drop_last())
    } else {
        s
    }
}

/// `s` with tab/newline characters removed from both ends.
pub open spec fn trim_ends(s: Seq<char>) -> Seq<char> {
    trim_back(trim_front(s))
}

/// Removes the leading and trailing tab/newline characters of `v`.
pub fn trim_ends_vec(v: &Vec<char>) -> (r: Vec<char>)
    ensures
        r@ == trim_ends(v@),
{
    proof {
        assert(v@.subrange(0, v@.len() as int) =~= v@);
    }
    let mut lo: usize = 0;
    while lo < v.len() && (v[lo] == '\t' || v[lo] == '\n')
        invariant
            lo <= v.len(),
            trim_front(v@) == trim_front(v@.subrange(lo as int, v@.len() as int)),
        decreases v.len() - lo,
    {
        proof {
            let rest = v@.subrange(lo as int, v@.len() as int);
            assert(rest.first() == v@[lo as int]);
            assert(rest.drop_first() =~= v@.subrange(lo + 1, v@.len() as int));
        }
        lo += 1;
    }
    proof {
        let rest = v@.subrange(lo as int, v@.len() as int);
        if lo < v.len() {
            assert(rest.first() == v@[lo as int]);
        }
        assert(trim_front(v@) == rest);
    }
    let mut hi: usize = v.len();
    while hi > lo && (v[hi - 1] == '\t' || v[hi - 1] == '\n')
        invariant
            lo <= hi <= v.len(),
            trim_front(v@) == v@.subrange(lo as int, v@.len() as int),
            trim_back(trim_front(v@)) == trim_back(v@.subrange(lo as int, hi as int)),
        decreases hi,
    {
        proof {
            let cur = v@.subrange(lo as int, hi as int);
            assert(cur.last() == v@[hi - 1]);
            assert(cur.drop_last() =~= v@.subrange(lo as int, hi - 1));
        }
        hi -= 1;
    }
    let mut r: Vec<char> = Vec::new();
    let mut i: usize = lo;
    while i < hi
        invariant
            lo <= i <= hi <= v.len(),
            r@ == v@.subrange(lo as int, i as int),
        decreases hi - i,
    {
        r.push(v[i]);
        proof {
            assert(v@.subrange(lo as int, i + 1) =~= v@.subrange(lo as int, i as int).push(
                v@[i as int],
            ));
        }
        i += 1;
    }
    proof {
        let cur = v@.subrange(lo as int, hi as int);
        if hi > lo {
            assert(cur.last() == v@[hi - 1]);
        }
        assert(trim_back(cur) == cur);
        assert(r@ == trim_ends(v@));
    }
    r
}

/// The first position at or after `k` that holds no digit (or the end).
pub open spec fn digit_end(s: Seq<char>, k: int) -> int
    decreases s.len() - k,
    when 0 <= k <= s.len()
{
    if k < s.len() && is_digit_char(s[k]) {
        digit_end(s, k + 1)
    } else {
        k
    }
}

pub proof fn lemma_digit_end_bounds(s: Seq<char>, k: int)
    requires
        0 <= k <= s.len(),
    ensures
        k <= digit_end(s, k) <= s.len(),
    decreases s.len() - k,
{
    if k < s.len() && is_digit_char(s[k]) {
        lemma_digit_end_bounds(s, k + 1);
    }
}

/// Everything between `k` and where the digit run ends is a digit.
pub proof fn lemma_digit_end_digits(s: Seq<char>, k: int)
    requires
        0 <= k <= s.len(),
    ensures
        forall|j: int| k <= j < digit_end(s, k) ==> is_digit_char(#[trigger] s[j]),
    decreases s.len() - k,
{
    if k < s.len() && is_digit_char(s[k]) {
        lemma_digit_end_digits(s, k + 1);
        lemma_digit_end_bounds(s, k + 1);
    }
}

/// A digit run of length `d - k`, stopped by a non-digit or the end, is
/// exactly where `digit_end` stops.
pub proof fn lemma_digit_end_exact(s: Seq<char>, k: int, d: int)
    requires
        0 <= k <= d <= s.len(),
        forall|j: int| k <= j < d ==> is_digit_char(#[trigger] s[j]),
        d == s.len() || !is_digit_char(s[d]),
    ensures
        digit_end(s, k) == d,
    decreases d - k,
{
    if k < d {
        lemma_digit_end_exact(s, k + 1, d);
    }
}

/// First position at or after `k` that holds no digit.
pub fn digit_end_vec(v: &Vec<char>, k: usize) -> (r: usize)
    requires
        k <= v.len(),
    ensures
        r as int == digit_end(v@, k as int),
        k <= r <= v.len(),
{
    let mut j: usize = k;
    while j < v.len() && digit_char(v[j])
        invariant
            k <= j <= v.len(),
            digit_end(v@, k as int) == digit_end(v@, j as int),
        decreases v.len() - j,
    {
        j += 1;
    }
    proof {
        lemma_digit_end_bounds(v@, j as int);
    }
    j
}

/// The decimal digit character for a value below ten.
pub open spec fn digit_of(d: nat) -> char {
    if d == 0 {
        '0'
    } else if d == 1 {
        '1'
    } else if d == 2 {
        '2'
    } else if d == 3 {
        '3'
    } else if d == 4 {
        '4'
    } else if d == 5 {
        '5'
    } else if d == 6 {
        '6'
    } else if d == 7 {
        '7'
    } else if d == 8 {
        '8'
    } else {
        '9'
    }
}

/// The decimal rendering of `n`, most significant digit first, no sign,
/// no leading zeros (a single `'0'` for zero).
pub open spec fn dec_digits(n: nat) -> Seq<char>
    decreases n,
{
    if n < 10 {
        seq![digit_of(n)]
    } else {
        dec_digits(n / 10).push(digit_of(n % 10))
    }
}

/// The numeric value of a digit character.
pub open spec fn digit_val(c: char) -> nat {
    (c as u32 - 48) as nat
}

/// The value of a digit string read as a decimal number.
pub open spec fn parse_dec(s: Seq<char>) -> nat
    decreases s.len(),
{
    if s.len() == 0 {
        0
    } else {
        parse_dec(s.drop_last()) * 10 + digit_val(s.last())
    }
}

/// Every character of a decimal rendering is a digit.
pub proof fn lemma_dec_digits_are_digits(n: nat)
    ensures
        dec_digits(n).len() >= 1,
        forall|i: int| 0 <= i < dec_digits(n).len() ==> is_digit_char(#[trigger] dec_digits(n)[i]),
    decreases n,
{
    if n >= 10 {
        lemma_dec_digits_are_digits(n / 10);
    }
}

/// Reading a decimal rendering back gives the number it renders: the
/// rendering is faithful, and hence injective.
pub proof fn lemma_parse_dec_digits(n: nat)
    ensures
        parse_dec(dec_digits(n)) == n,
    decreases n,
{
    if n < 10 {
        let s = dec_digits(n);
        assert(s.drop_last() =~= Seq::<char>::empty());
        assert(parse_dec(Seq::<char>::empty()) == 0);
        assert(parse_dec(s) == parse_dec(s.drop_last()) * 10 + digit_val(s.last()));
    } else {
        lemma_parse_dec_digits(n / 10);
        let s = dec_digits(n);
        assert(s.drop_last() =~= dec_digits(n / 10));
        assert(parse_dec(s) == (n / 10) * 10 + digit_val(digit_of(n % 10)));
        assert(digit_val(digit_of(n % 10)) == n % 10);
        assert((n / 10) * 10 + n % 10 == n) by (nonlinear_arith);
    }
}

/// Distinct numbers have distinct decimal renderings.
pub proof fn lemma_dec_digits_injective(a: nat, b: nat)
    requires
        dec_digits(a) == dec_digits(b),
    ensures
        a == b,
{
    lemma_parse_dec_digits(a);
    lemma_parse_dec_digits(b);
}

/// The decimal digit character for `d`, which must be below ten.
pub fn digit_char_of(d: u64) -> (r: char)
    requires
        d < 10,
    ensures
        r == digit_of(d as nat),
{
    if d == 0 {
        '0'
    } else if d == 1 {
        '1'
    } else if d == 2 {
        '2'
    } else if d == 3 {
        '3'
    } else if d == 4 {
        '4'
    } else if d == 5 {
        '5'
    } else if d == 6 {
        '6'
    } else if d == 7 {
        '7'
    } else if d == 8 {
        '8'
    } else {
        '9'
    }
}

/// The decimal rendering of `n` as characters.
pub fn dec_chars_u64(n: u64) -> (r: Vec<char>)
    ensures
        r@ == dec_digits(n as nat),
    decreases n,
{
    if n < 10 {
        let mut r: Vec<char> = Vec::new();
        r.push(digit_char_of(n));
        proof {
            assert(r@ =~= seq![digit_of(n as nat)]);
        }
        r
    } else {
        let mut r = dec_chars_u64(n / 10);
        r.push(digit_char_of(n % 10));
        r
    }
}

/// Relies on `str::chars` (std): the characters of `s` in order are exactly
/// the string's view.
#[verifier::external_body]
pub fn str_chars(s: &str) -> (r: Vec<char>)
    ensures
        r@ == s@,
{
    s.chars().collect()
}

/// Relies on `String`'s `FromIterator<char>` impl (std): the built string
/// holds exactly the characters of `v`, in order.
#[verifier::external_body]
pub fn chars_string(v: &Vec<char>) -> (r: String)
    ensures
        r@ == v@,
{
    v.iter().copied().collect()
}

} // verus!
