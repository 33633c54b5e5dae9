//! The tag-extraction boundary. Parsing HTML and selecting elements is the
//! HTML library's work, reached through two trusted wrappers whose results
//! carry opaque names; everything around them — skipping a prefix, capping
//! the count, aborting on a missing attribute, trimming text nodes — is
//! verified here.
use vstd::prelude::*;

use crate::segment::string_views;
use crate::text::chars_string;
use crate::text::str_chars;
use crate::text::trim_ends;
use crate::text::trim_ends_vec;

verus! {

/// What scraper yields for a body and a selector in attribute mode: per
/// matched element, in document order, the value of the attribute, or `None`
/// where the element lacks it. A pure function of the three texts.
pub uninterp spec fn attr_matches(body: Seq<char>, selector: Seq<char>, attr: Seq<char>) -> Seq<
    Option<Seq<char>>,
>;

/// What scraper yields for a body and a selector in text mode: per matched
/// element, in document order, its first text node, or `None` where the
/// element has none. A pure function of the two texts.
pub uninterp spec fn text_matches(body: Seq<char>, selector: Seq<char>) -> Seq<Option<Seq<char>>>;

/// Relies on scraper: `Html::parse_document` parses `body`,
/// `Selector::parse` compiles `selector`, `Html::select` lists the matching
/// elements in document order, and `Element::attr` reads the named attribute
/// of each — all pure functions of their inputs, named here as
/// `attr_matches`. An unparsable selector matches nothing.
#[verifier::external_body]
fn select_attr_values(body: &str, selector: &str, attr: &str) -> (r: Vec<Option<String>>)
    ensures
        r.deep_view() == attr_matches(body@, selector@, attr@),
{
    let doc = scraper::Html::parse_document(body);
    let sel = match scraper::Selector::parse(selector) {
        Ok(sel) => sel,
        Err(_) => return Vec::new(),
    };
    doc.select(&sel).map(|el| el.value().attr(attr).map(|a| a.to_string())).collect()
}

/// Relies on scraper: `Html::parse_document`, `Selector::parse`,
/// `Html::select` as above, and `ElementRef::text` for the first text node
/// of each matched element — all pure functions of their inputs, named here
/// as `text_matches`. An unparsable selector matches nothing.
#[verifier::external_body]
fn select_text_values(body: &str, selector: &str) -> (r: Vec<Option<String>>)
    ensures
        r.deep_view() == text_matches(body@, selector@),
{
    let doc = scraper::Html::parse_document(body);
    let sel = match scraper::Selector::parse(selector) {
        Ok(sel) => sel,
        Err(_) => return Vec::new(),
    };
    doc.select(&sel).map(|el| el.text().next().map(|t| t.to_string())).collect()
}

/// The window of matches actually taken: the first `skip` are dropped, then
/// at most `limit` are kept.
pub open spec fn sel_window(m: Seq<Option<Seq<char>>>, skip: nat, limit: nat) -> Seq<
    Option<Seq<char>>,
> {
    let lo = if skip as int <= m.len() {
        skip as int
    } else {
        m.len() as int
    };
    let hi = if lo + limit as int <= m.len() {
        lo + limit as int
    } else {
        m.len() as int
    };
    m.subrange(lo, hi)
}

/// Every taken element carries the attribute.
pub open spec fn all_have_attr(w: Seq<Option<Seq<char>>>) -> bool {
    forall|i: int| 0 <= i < w.len() ==> w[i] is Some
}

/// The attribute values of the taken window.
pub open spec fn unwrap_attrs(w: Seq<Option<Seq<char>>>) -> Seq<Seq<char>> {
    w.map_values(|o: Option<Seq<char>>| o->Some_0)
}

/// The text nodes of the taken window, each trimmed of leading and trailing
/// tabs and newlines; elements without a text node yield no entry.
pub open spec fn texts_clean(w: Seq<Option<Seq<char>>>) -> Seq<Seq<char>>
    decreases w.len(),
{
    if w.len() == 0 {
        Seq::empty()
    } else {
        match w.last() {
            None => texts_clean(w.drop_last()),
            Some(t) => texts_clean(w.drop_last()).push(trim_ends(t)),
        }
    }
}

pub proof fn lemma_texts_clean_len(w: Seq<Option<Seq<char>>>)
    ensures
        texts_clean(w).len() <= w.len(),
    decreases w.len(),
{
    if w.len() > 0 {
        lemma_texts_clean_len(w.drop_last());
    }
}

/// What extraction yields: nothing for an empty body; in attribute mode the
/// attribute values of the taken window, or nothing at all if any taken
/// element lacks the attribute (a malformed page degrades like a failed
/// fetch); in text mode the trimmed first text nodes of the taken window.
pub open spec fn extraction(
    body: Seq<char>,
    skip: nat,
    limit: nat,
    selector: Seq<char>,
    attr: Seq<char>,
) -> Seq<Seq<char>> {
    if body.len() == 0 {
        Seq::empty()
    } else if attr.len() > 0 {
        let w = sel_window(attr_matches(body, selector, attr), skip, limit);
        if all_have_attr(w) {
            unwrap_attrs(w)
        } else {
            Seq::empty()
        }
    } else {
        texts_clean(sel_window(text_matches(body, selector), skip, limit))
    }
}

/// Extracts the selected strings of an already-fetched document body:
/// matches of `selector` in document order, the first `skip` skipped, at
/// most `limit` taken; attribute values if `attr` is nonempty, first text
/// nodes (trimmed of tabs and newlines) otherwise.
pub fn extract_from_body(
    body: &str,
    skip: usize,
    limit: usize,
    selector: &str,
    attr: &str,
) -> (r: Vec<String>)
    ensures
        string_views(r@) == extraction(body@, skip as nat, limit as nat, selector@, attr@),
        r@.len() <= limit,
{
    let ghost want = extraction(body@, skip as nat, limit as nat, selector@, attr@);
    if body.is_empty() {
        let r: Vec<String> = Vec::new();
        proof {
            assert(string_views(r@) =~= want);
        }
        return r;
    }
    if !attr.is_empty() {
        let vals = select_attr_values(body, selector, attr);
        let ghost m = attr_matches(body@, selector@, attr@);
        let ghost w = sel_window(m, skip as nat, limit as nat);
        let lo: usize = if skip <= vals.len() {
            skip
        } else {
            vals.len()
        };
        let hi: usize = if limit <= vals.len() - lo {
            lo + limit
        } else {
            vals.len()
        };
        proof {
            assert(m.len() == vals@.len());
            assert(w == m.subrange(lo as int, hi as int));
            assert(w.len() == hi - lo);
        }
        let mut out: Vec<String> = Vec::new();
        let mut idx: usize = lo;
        while idx < hi
            invariant
                lo <= idx <= hi <= vals.len(),
                m == vals.deep_view(),
                m == attr_matches(body@, selector@, attr@),
                w == m.subrange(lo as int, hi as int),
                want == extraction(body@, skip as nat, limit as nat, selector@, attr@),
                body@.len() > 0,
                attr@.len() > 0,
                w == sel_window(m, skip as nat, limit as nat),
                all_have_attr(w.subrange(0, idx - lo)),
                string_views(out@) == unwrap_attrs(w.subrange(0, idx - lo)),
                out@.len() == idx - lo,
            decreases hi - idx,
        {
            proof {
                assert(m[idx as int] == vals@[idx as int].deep_view());
                assert(w[idx - lo] == m[idx as int]);
            }
            match &vals[idx] {
                Some(sv) => {
                    let copied = sv.clone();
                    out.push(copied);
                    proof {
                        assert(w.subrange(0, idx - lo + 1).drop_last() =~= w.subrange(
                            0,
                            idx - lo,
                        ));
                        assert(w.subrange(0, idx - lo + 1).last() == w[idx - lo]);
                        assert(string_views(out@) =~= unwrap_attrs(w.subrange(0, idx - lo)).push(
                            copied@,
                        ));
                        assert(unwrap_attrs(w.subrange(0, idx - lo + 1)) =~= unwrap_attrs(
                            w.subrange(0, idx - lo),
                        ).push(w[idx - lo]->Some_0));
                    }
                },
                None => {
                    let r: Vec<String> = Vec::new();
                    proof {
                        assert(w[idx - lo] is None);
                        assert(!all_have_attr(w));
                        assert(string_views(r@) =~= want);
                    }
                    return r;
                },
            }
            idx += 1;
        }
        proof {
            assert(w.subrange(0, w.len() as int) =~= w);
            assert(all_have_attr(w));
            assert(string_views(out@) == unwrap_attrs(w));
            assert(unwrap_attrs(w).len() == w.len());
        }
        return out;
    }
    let vals = select_text_values(body, selector);
    let ghost m = text_matches(body@, selector@);
    let ghost w = sel_window(m, skip as nat, limit as nat);
    let lo: usize = if skip <= vals.len() {
        skip
    } else {
        vals.len()
    };
    let hi: usize = if limit <= vals.len() - lo {
        lo + limit
    } else {
        vals.len()
    };
    proof {
        assert(m.len() == vals@.len());
        assert(w == m.subrange(lo as int, hi as int));
        assert(w.len() == hi - lo);
    }
    let mut out: Vec<String> = Vec::new();
    let mut idx: usize = lo;
    while idx < hi
        invariant
            lo <= idx <= hi <= vals.len(),
            m == vals.deep_view(),
            m == text_matches(body@, selector@),
            w == m.subrange(lo as int, hi as int),
            want == extraction(body@, skip as nat, limit as nat, selector@, attr@),
            body@.len() > 0,
            attr@.len() == 0,
            w == sel_window(m, skip as nat, limit as nat),
            string_views(out@) == texts_clean(w.subrange(0, idx - lo)),
            out@.len() <= idx - lo,
        decreases hi - idx,
    {
        proof {
            assert(m[idx as int] == vals@[idx as int].deep_view());
            assert(w[idx - lo] == m[idx as int]);
            assert(w.subrange(0, idx - lo + 1).drop_last() =~= w.subrange(0, idx - lo));
            assert(w.subrange(0, idx - lo + 1).last() == w[idx - lo]);
        }
        match &vals[idx] {
            Some(t) => {
                let chars = str_chars(t.as_str());
                let trimmed = trim_ends_vec(&chars);
                let cleaned = chars_string(&trimmed);
                out.push(cleaned);
                proof {
                    assert(string_views(out@) =~= texts_clean(w.subrange(0, idx - lo)).push(
                        trim_ends(t@),
                    ));
                }
            },
            None => {
            },
        }
        idx += 1;
    }
    proof {
        assert(w.subrange(0, w.len() as int) =~= w);
        lemma_texts_clean_len(w);
    }
    out
}

} // verus!
