//! The fetch-facing layer: the `Fetcher` port that the surrounding program
//! implements over its HTTP client, the crawl configuration, and the
//! page-level functions that fetch a document and hand its body to the
//! verified extraction and segmentation logic.
use vstd::prelude::*;
use vstd::string::StringExecFns;

use crate::segment::clean_full_text;
use crate::segment::lemma_index_density;
use crate::segment::paragraph_number;
use crate::segment::segment_paragraphs;
use crate::segment::segment_text;
use crate::segment::string_views;
use crate::select::extract_from_body;
use crate::text::chars_string;
use crate::text::dec_chars_u64;
use crate::text::lemma_strip_char_gone;
use crate::text::lemma_strip_char_keeps_absent;
use crate::text::strip_char;

verus! {

/// The fetch boundary: fetches a URL and returns the response body. A failed
/// fetch — network error, non-success status, timeout — yields the empty
/// string. Nothing is assumed of the result: the callers state what holds
/// whatever body comes back.
pub trait Fetcher {
    fn fetch(&mut self, url: &str) -> (r: String);
}

/// The crawl's configuration: where the index lives, which selectors pick
/// links and body text, and the fixed counts of the listing.
pub struct CrawlConfig {
    /// Prefix of the paginated index URL; the 1-based page number is
    /// appended to it.
    pub index_url_prefix: String,
    /// Selector matching statute links on index and detail pages.
    pub link_selector: String,
    /// Selector matching the body-text container of a statute page.
    pub body_selector: String,
    /// Leading link matches to skip on a listing (a non-law anchor always
    /// stands first).
    pub ignore: usize,
    /// Statutes listed per index page.
    pub page_size: usize,
    /// Cool-down, in seconds, after a page yields no links.
    pub cooldown_secs: u64,
}

/// The configuration of the public statute index this crate is written for.
pub fn standard_config() -> (r: CrawlConfig)
    ensures
        r.index_url_prefix@ == "https://www.riksdagen.se/sv/sok/?doktyp=sfs&dokstat=g%C3%A4llande+sfs&p="@,
        r.link_selector@ == "a.sc-3189427c-0"@,
        r.body_selector@ == "div.body-text"@,
        r.ignore == 1,
        r.page_size == 20,
        r.cooldown_secs == 1000,
{
    CrawlConfig {
        index_url_prefix: String::from_str(
            "https://www.riksdagen.se/sv/sok/?doktyp=sfs&dokstat=g%C3%A4llande+sfs&p=",
        ),
        link_selector: String::from_str("a.sc-3189427c-0"),
        body_selector: String::from_str("div.body-text"),
        ignore: 1,
        page_size: 20,
        cooldown_secs: 1000,
    }
}

/// The index URL of page `page`: the configured prefix with the decimal page
/// number appended.
pub fn index_url(cfg: &CrawlConfig, page: u64) -> (r: String)
    ensures
        r@ == cfg.index_url_prefix@ + crate::text::dec_digits(page as nat),
{
    let digits = chars_string(&dec_chars_u64(page));
    let mut url = cfg.index_url_prefix.clone();
    url.append(digits.as_str());
    url
}

/// Fetches `url` and extracts the selected strings of its body: matches of
/// `tag` in document order, the first `ignore` skipped, at most `take`
/// taken; attribute values of `attr` if it is nonempty, first text nodes
/// otherwise. A failed fetch yields the empty list.
pub fn extract_tag<F: Fetcher>(
    f: &mut F,
    url: &str,
    ignore: usize,
    take: usize,
    tag: &str,
    attr: &str,
) -> (r: Vec<String>)
    ensures
        r@.len() <= take,
{
    let body = f.fetch(url);
    extract_from_body(body.as_str(), ignore, take, tag, attr)
}

/// Lists the statute links of index page `page`: at most `take` of them,
/// after skipping the leading non-law anchor. An empty result signals a page
/// past the end of the index (or a failed fetch).
pub fn main_page_links<F: Fetcher>(
    f: &mut F,
    cfg: &CrawlConfig,
    page: u64,
    take: usize,
) -> (r: Vec<String>)
    ensures
        r@.len() <= take,
{
    let url = index_url(cfg, page);
    extract_tag(f, url.as_str(), cfg.ignore, take, cfg.link_selector.as_str(), "href")
}

/// Fetches a statute page and returns its full body text with every tab and
/// newline removed; the empty string where the page yields no body text.
pub fn write_full_text<F: Fetcher>(f: &mut F, cfg: &CrawlConfig, url: &str) -> (r: String)
    ensures
        forall|i: int| 0 <= i < r@.len() ==> r@[i] != '\t' && r@[i] != '\n',
{
    let raw = extract_tag(f, url, 0, 1, cfg.body_selector.as_str(), "");
    if raw.len() == 0 {
        let r = String::new();
        return r;
    }
    let cleaned = clean_full_text(raw[0].as_str());
    proof {
        let raw0 = raw@[0]@;
        lemma_strip_char_gone(raw0, '\t');
        lemma_strip_char_keeps_absent(strip_char(raw0, '\t'), '\n', '\t');
        lemma_strip_char_gone(strip_char(raw0, '\t'), '\n');
    }
    cleaned
}

/// Fetches a statute page and returns its ordered paragraphs: each one
/// prefixed with its 0-based index and stripped of internal newlines; the
/// empty list where the page yields no body text. Whatever body came back,
/// the paragraphs number themselves densely: paragraph `i` carries number
/// `i`.
pub fn write_paragraphs<F: Fetcher>(f: &mut F, cfg: &CrawlConfig, url: &str) -> (r: Vec<String>)
    ensures
        forall|i: int|
            0 <= i < r@.len() ==> paragraph_number(#[trigger] r@[i]@) == Some(i as nat),
{
    let raw = extract_tag(f, url, 0, 1, cfg.body_selector.as_str(), "");
    if raw.len() == 0 {
        let r: Vec<String> = Vec::new();
        return r;
    }
    let ps = segment_text(raw[0].as_str());
    proof {
        let raw0 = raw@[0]@;
        lemma_index_density(raw0);
        assert forall|i: int| 0 <= i < ps@.len() implies paragraph_number(#[trigger] ps@[i]@)
            == Some(i as nat) by {
            assert(ps@[i]@ == string_views(ps@)[i]);
            assert(string_views(ps@)[i] == segment_paragraphs(raw0)[i]);
        }
    }
    ps
}

} // verus!
