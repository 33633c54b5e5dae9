use lawharvest::embed::EmbedProvider;
use lawharvest::fetch::standard_config;
use lawharvest::fetch::Fetcher;
use lawharvest::lawid::resolve_law_id;
use lawharvest::orchestrate::embed_key;
use lawharvest::orchestrate::pages_for_worker;
use lawharvest::orchestrate::process_links;
use lawharvest::orchestrate::resolve;
use lawharvest::orchestrate::process_page;
use lawharvest::orchestrate::scrape_page;
use lawharvest::orchestrate::text_key;
use lawharvest::orchestrate::PageOutcome;
use lawharvest::orchestrate::WriteOp;

/// Serves canned pages from a URL → body table; anything else fetches as
/// empty.
struct SiteStub {
    pages: Vec<(String, String)>,
}

impl Fetcher for SiteStub {
    fn fetch(&mut self, url: &str) -> String {
        for (u, b) in &self.pages {
            if u == url {
                return b.clone();
            }
        }
        String::new()
    }
}

/// A provider that never delivers an embedding.
struct NoEmbeddings;

impl EmbedProvider for NoEmbeddings {
    fn request(&mut self, _text: &str) -> Option<Vec<String>> {
        None
    }
}

/// A provider that always delivers the same vector.
struct FixedEmbedding;

impl EmbedProvider for FixedEmbedding {
    fn request(&mut self, _text: &str) -> Option<Vec<String>> {
        Some(vec![
            String::from("0.125"),
            String::from("0.25"),
            String::from("0.5"),
        ])
    }
}

fn index_url_of(page: u64) -> String {
    format!(
        "https://www.riksdagen.se/sv/sok/?doktyp=sfs&dokstat=g%C3%A4llande+sfs&p={}",
        page
    )
}

fn anchor(href: &str) -> String {
    format!("<a class=\"sc-3189427c-0\" href=\"{}\">x</a>", href)
}

fn law_body(bet: &str) -> String {
    format!(
        "<div class=\"body-text\">F\u{f6}rordning ({}).\n\n1 \u{a7} F\u{f6}rsta stycket.\n\n2 \u{a7} Andra stycket.\n</div>",
        bet
    )
}

/// A site with one index page listing one law, its detail page, and its
/// canonical statute page.
fn one_law_site(page: u64, bet: &str, bet_key: &str) -> SiteStub {
    let detail = format!("https://www.riksdagen.se/sv/detail/{}/", bet_key);
    let canonical = format!("http://rkrattsbaser.gov.se/sfst?bet={}", bet);
    SiteStub {
        pages: vec![
            (
                index_url_of(page),
                format!("<p>{}{}</p>", anchor("#not-a-law"), anchor(&detail)),
            ),
            (
                detail.clone(),
                format!("<p>{}{}</p>", anchor("#not-a-law"), anchor(&canonical)),
            ),
            (canonical.clone(), law_body(bet)),
        ],
    }
}

fn batch_ops(r: PageOutcome) -> Vec<WriteOp> {
    match r {
        PageOutcome::Batch { ops } => ops,
        PageOutcome::NoLinks => panic!("expected a batch"),
    }
}

#[test]
fn law_id_is_extracted_and_normalized() {
    let id = resolve_law_id("http://rkrattsbaser.gov.se/sfst?bet=2023:903");
    assert_eq!(id, Some(String::from("2023_903")));
}

#[test]
fn law_id_absent_means_no_statute() {
    assert_eq!(resolve_law_id("https://example.org/om-webbplatsen"), None);
    assert_eq!(resolve_law_id("bet=203:903"), None);
}

#[test]
fn law_id_allows_empty_serial() {
    assert_eq!(resolve_law_id("x1234:y"), Some(String::from("1234_")));
    assert_eq!(resolve_law_id("ab12345:67"), Some(String::from("2345_67")));
}

#[test]
fn resolve_follows_detail_page_to_canonical() {
    let mut f = one_law_site(1, "2023:903", "2023-903");
    let cfg = standard_config();
    let r = resolve(&mut f, &cfg, "https://www.riksdagen.se/sv/detail/2023-903/");
    assert_eq!(
        r,
        Some((
            String::from("2023_903"),
            String::from("http://rkrattsbaser.gov.se/sfst?bet=2023:903"),
        ))
    );
}

#[test]
fn resolve_skips_unknown_links() {
    let mut f = one_law_site(1, "2023:903", "2023-903");
    let cfg = standard_config();
    let r = resolve(&mut f, &cfg, "https://www.riksdagen.se/sv/detail/other/");
    assert_eq!(r, None);
}

#[test]
fn keys_carry_namespace_identifier_and_index() {
    assert_eq!(text_key("2023_903", 4), "paragraphs/2023_903-4");
    assert_eq!(embed_key("2023_903", 4), "embeddings/2023_903-4");
    assert_ne!(text_key("2023_903", 4), embed_key("2023_903", 4));
    assert_ne!(text_key("2023_903", 4), text_key("2023_903", 5));
    assert_ne!(text_key("2023_90", 4), text_key("2023_903", 4));
}

#[test]
fn empty_page_signals_no_links_not_an_error() {
    let mut f = SiteStub { pages: Vec::new() };
    let mut prov = NoEmbeddings;
    let cfg = standard_config();
    let links: Vec<String> = Vec::new();
    let r = process_links(&mut f, &mut prov, &cfg, &links, 2);
    assert!(matches!(r, PageOutcome::NoLinks));
}

#[test]
fn page_past_the_end_takes_the_cooldown_path() {
    let mut f = one_law_site(1, "2023:903", "2023-903");
    let mut prov = NoEmbeddings;
    let cfg = standard_config();
    let r = process_page(&mut f, &mut prov, &cfg, 269, 2);
    assert!(matches!(r, PageOutcome::NoLinks));
}

#[test]
fn one_law_page_plans_paragraph_writes() {
    let mut f = one_law_site(1, "2023:903", "2023-903");
    let mut prov = NoEmbeddings;
    let cfg = standard_config();
    let ops = batch_ops(process_page(&mut f, &mut prov, &cfg, 1, 2));
    assert_eq!(ops.len(), 3);
    assert_eq!(ops[0].key, "paragraphs/2023_903-0");
    assert_eq!(ops[1].key, "paragraphs/2023_903-1");
    assert_eq!(ops[1].content, "1 § Första stycket.");
    assert_eq!(ops[2].key, "paragraphs/2023_903-2");
    assert_eq!(ops[2].content, "2 § Andra stycket.");
}

#[test]
fn successful_embeddings_are_planned_beside_paragraphs() {
    let mut f = one_law_site(1, "2023:903", "2023-903");
    let mut prov = FixedEmbedding;
    let cfg = standard_config();
    let ops = batch_ops(process_page(&mut f, &mut prov, &cfg, 1, 2));
    assert_eq!(ops.len(), 6);
    assert_eq!(ops[0].key, "paragraphs/2023_903-0");
    assert_eq!(ops[1].key, "embeddings/2023_903-0");
    assert_eq!(ops[1].content, "0.125,0.25,0.5");
    assert_eq!(ops[2].key, "paragraphs/2023_903-1");
    assert_eq!(ops[3].key, "embeddings/2023_903-1");
}

#[test]
fn rerunning_a_page_plans_identical_writes() {
    let cfg = standard_config();
    let mut prov = NoEmbeddings;
    let mut f1 = one_law_site(1, "2023:903", "2023-903");
    let first = batch_ops(process_page(&mut f1, &mut prov, &cfg, 1, 2));
    let mut f2 = one_law_site(1, "2023:903", "2023-903");
    let second = batch_ops(process_page(&mut f2, &mut prov, &cfg, 1, 2));
    assert_eq!(first.len(), second.len());
    for (a, b) in first.iter().zip(second.iter()) {
        assert_eq!(a.key, b.key);
        assert_eq!(a.content, b.content);
    }
}

#[test]
fn disjoint_pages_plan_disjoint_keys() {
    let cfg = standard_config();
    let mut prov = NoEmbeddings;
    let mut f1 = one_law_site(1, "2023:903", "2023-903");
    let first = batch_ops(process_page(&mut f1, &mut prov, &cfg, 1, 2));
    let mut f2 = one_law_site(2, "2024:17", "2024-17");
    let second = batch_ops(process_page(&mut f2, &mut prov, &cfg, 2, 2));
    for a in &first {
        for b in &second {
            assert_ne!(a.key, b.key);
        }
    }
}

#[test]
fn scrape_page_resolves_identifier_and_paragraphs() {
    let mut f = one_law_site(1, "2023:903", "2023-903");
    let cfg = standard_config();
    let laws = scrape_page(&mut f, &cfg, 1);
    assert_eq!(laws.len(), 1);
    assert_eq!(laws[0].law_id, "2023_903");
    assert_eq!(laws[0].paragraphs.len(), 3);
    assert_eq!(laws[0].paragraphs[1], "1 § Första stycket.");
}

#[test]
fn worker_partition_is_by_remainder() {
    assert_eq!(pages_for_worker(1, 10, 1, 25), vec![1, 11, 21]);
    assert_eq!(pages_for_worker(0, 10, 1, 25), vec![10, 20]);
    assert_eq!(pages_for_worker(3, 4, 5, 5), Vec::<u64>::new());
    assert_eq!(pages_for_worker(1, 4, 5, 5), vec![5]);
}

#[test]
fn worker_partition_covers_every_page_once() {
    let width: u64 = 7;
    let mut seen: Vec<u64> = Vec::new();
    for w in 0..width {
        for p in pages_for_worker(w, width, 3, 40) {
            assert!(!seen.contains(&p));
            seen.push(p);
        }
    }
    seen.sort();
    let all: Vec<u64> = (3..=40).collect();
    assert_eq!(seen, all);
}
