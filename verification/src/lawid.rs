//! The law-identifier matcher: finds the leftmost occurrence of four digits,
//! a colon, and a greedy (possibly empty) run of digits in a canonical
//! statute URL, and normalizes it by replacing the colon with an underscore.
//! A URL without such an occurrence names no statute and yields nothing.
use vstd::prelude::*;

use crate::text::digit_char;
use crate::text::digit_end;
use crate::text::digit_end_vec;
use crate::text::is_digit_char;
use crate::text::lemma_digit_end_bounds;
use crate::text::lemma_digit_end_digits;
use crate::text::str_chars;
use crate::text::chars_string;

verus! {

/// Four digits followed by a colon start at position `i`.
pub open spec fn law_match_at(s: Seq<char>, i: int) -> bool {
    &&& 0 <= i
    &&& i + 5 <= s.len()
    &&& is_digit_char(s[i])
    &&& is_digit_char(s[i + 1])
    &&& is_digit_char(s[i + 2])
    &&& is_digit_char(s[i + 3])
    &&& s[i + 4] == ':'
}

/// The leftmost match position at or after `i`, if any.
pub open spec fn find_law(s: Seq<char>, i: int) -> Option<int>
    decreases s.len() - i,
    when 0 <= i <= s.len()
{
    if i + 5 > s.len() {
        None
    } else if law_match_at(s, i) {
        Some(i)
    } else {
        find_law(s, i + 1)
    }
}

pub proof fn lemma_find_law_match(s: Seq<char>, i: int)
    requires
        0 <= i <= s.len(),
    ensures
        find_law(s, i) matches Some(m) ==> i <= m && law_match_at(s, m),
    decreases s.len() - i,
{
    if i + 5 <= s.len() && !law_match_at(s, i) {
        lemma_find_law_match(s, i + 1);
    }
}

/// The normalized law identifier of a canonical URL: the four year digits,
/// an underscore for the colon, then the digits that follow the colon.
pub open spec fn law_id_of(s: Seq<char>) -> Option<Seq<char>> {
    match find_law(s, 0) {
        None => None,
        Some(i) => Some(
            s.subrange(i, i + 4) + seq!['_'] + s.subrange(i + 5, digit_end(s, i + 5)),
        ),
    }
}

/// An identifier shape every produced law id has: at least the four year
/// digits and the underscore, and nothing but digits and underscores.
pub open spec fn law_id_wellformed(id: Seq<char>) -> bool {
    &&& id.len() >= 5
    &&& forall|j: int| 0 <= j < id.len() ==> is_digit_char(#[trigger] id[j]) || id[j] == '_'
}

/// Every identifier the matcher yields is well formed.
pub proof fn lemma_law_id_wellformed(s: Seq<char>)
    ensures
        law_id_of(s) matches Some(id) ==> law_id_wellformed(id),
{
    lemma_find_law_match(s, 0);
    if let Some(i) = find_law(s, 0) {
        lemma_digit_end_bounds(s, i + 5);
        lemma_digit_end_digits(s, i + 5);
        let id = law_id_of(s)->Some_0;
        assert forall|j: int| 0 <= j < id.len() implies is_digit_char(#[trigger] id[j]) || id[j]
            == '_' by {
            if j < 4 {
                assert(id[j] == s[i + j]);
            } else if j == 4 {
                assert(id[j] == '_');
            } else {
                assert(id[j] == s[i + j]);
            }
        }
    }
}

/// Extracts the normalized law identifier of a canonical URL, or `None`
/// where the URL holds no `digits:digits` statute marker.
pub fn resolve_law_id(url: &str) -> (r: Option<String>)
    ensures
        match r {
            Some(id) => law_id_of(url@) matches Some(v) && v == id@,
            None => law_id_of(url@) is None,
        },
{
    let v = str_chars(url);
    let ghost s = url@;
    let n = v.len();
    if n < 5 {
        proof {
            if s.len() >= 5 {
                assert(false);
            }
        }
        return None;
    }
    let mut i: usize = 0;
    while i <= n - 5
        invariant
            s == v@,
            s == url@,
            n == v.len(),
            n >= 5,
            0 <= i <= n,
            find_law(s, 0) == find_law(s, i as int),
        decreases n - i,
    {
        let hit = digit_char(v[i]) && digit_char(v[i + 1]) && digit_char(v[i + 2]) && digit_char(
            v[i + 3],
        ) && v[i + 4] == ':';
        if hit {
            let e = digit_end_vec(&v, i + 5);
            let mut id: Vec<char> = Vec::new();
            id.push(v[i]);
            id.push(v[i + 1]);
            id.push(v[i + 2]);
            id.push(v[i + 3]);
            id.push('_');
            let mut k: usize = i + 5;
            proof {
                assert(id@ =~= s.subrange(i as int, i + 4) + seq!['_']);
            }
            while k < e
                invariant
                    s == v@,
                    i + 5 <= k <= e <= v.len(),
                    e as int == digit_end(s, i + 5),
                    id@ == s.subrange(i as int, i + 4) + seq!['_'] + s.subrange(i + 5, k as int),
                decreases e - k,
            {
                id.push(v[k]);
                proof {
                    assert(s.subrange(i as int, i + 4) + seq!['_'] + s.subrange(i + 5, k + 1)
                        =~= (s.subrange(i as int, i + 4) + seq!['_'] + s.subrange(
                        i + 5,
                        k as int,
                    )).push(s[k as int]));
                }
                k += 1;
            }
            proof {
                assert(law_match_at(s, i as int));
                assert(find_law(s, i as int) == Some(i as int));
                assert(find_law(s, 0) == Some(i as int));
                assert(k as int == digit_end(s, i + 5));
                assert(law_id_of(s) == Some(
                    s.subrange(i as int, i + 4) + seq!['_'] + s.subrange(
                        i + 5,
                        digit_end(s, i + 5),
                    ),
                ));
                assert(id@ =~= s.subrange(i as int, i + 4) + seq!['_'] + s.subrange(
                    i + 5,
                    digit_end(s, i + 5),
                ));
            }
            let out = chars_string(&id);
            proof {
                assert(law_id_of(s) matches Some(w) && w == out@);
            }
            return Some(out);
        }
        proof {
            assert(!law_match_at(s, i as int));
            assert(find_law(s, i as int) == find_law(s, i + 1));
        }
        i += 1;
    }
    proof {
        assert(i + 5 > n);
        assert(find_law(s, i as int) is None);
    }
    None
}

} // verus!
