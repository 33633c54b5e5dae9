use lawharvest::fetch::standard_config;
use lawharvest::fetch::write_full_text;
use lawharvest::fetch::write_paragraphs;
use lawharvest::fetch::Fetcher;
use lawharvest::segment::clean_full_text;
use lawharvest::segment::segment_text;
use lawharvest::select::extract_from_body;

/// Serves one canned statute page under its canonical URL; anything else
/// fetches as empty.
struct LawStub {
    expect_url: String,
    html: String,
}

impl Fetcher for LawStub {
    fn fetch(&mut self, url: &str) -> String {
        if url == self.expect_url {
            self.html.clone()
        } else {
            String::new()
        }
    }
}

/// The raw body text of the reference statute 2023:903, as the body-text
/// container of its page carries it.
fn reference_law_text() -> String {
    let mut d = String::new();
    d.push_str("Förordning (2023:903) om statsbidrag för översiktsplanering\n");
    d.push_str("\nSFS nr: 2023:903\nTräder i kraft I:2024-04-02\n");
    d.push_str("\n1 § I denna förordning finns bestämmelser om stöd till kommuner.\n");
    d.push_str("Förordningen är meddelad med stöd av\n");
    d.push_str("- 8 kap. 7 § regeringsformen i fråga om övriga bestämmelser.\n");
    d.push_str("\n2 § Stöd får, i mån av tillgång på medel, ges till en kommun som efter den 31 december 2023 antar en ny översiktsplan.\n");
    for k in 3..15 {
        d.push_str(&format!("\n{} § Ytterligare bestämmelser finns i avsnitt {}.\n", k, k));
    }
    d.push_str("Överklagande \n\n15 § Beslut enligt denna förordning får inte överklagas.\n");
    d
}

fn reference_law_stub() -> LawStub {
    LawStub {
        expect_url: String::from("http://rkrattsbaser.gov.se/sfst?bet=2023:903"),
        html: format!("<html><body><div class=\"body-text\">{}</div></body></html>", reference_law_text()),
    }
}

#[test]
fn raw_text_is_correct_random_law() {
    let url = "http://rkrattsbaser.gov.se/sfst?bet=2023:903";
    let mut f = reference_law_stub();
    let cfg = standard_config();
    let text = write_full_text(&mut f, &cfg, url);
    let correct = reference_law_text().replace("\t", "").replace("\n", "");

    assert!(text.len() <= correct.len());
    assert!(text.contains("Träder i kraft I:2024-04-02"));
    assert!(text.contains("i mån av tillgång på medel, ges till en kommun som efter den 31 december 2023 antar e"));
    assert!(text.contains("Överklagande 15 § Beslut enligt denna förordning får inte överklagas."));
}

#[test]
fn paragraphs_is_correct_random_law() {
    let url = "http://rkrattsbaser.gov.se/sfst?bet=2023:903";
    let mut f = reference_law_stub();
    let cfg = standard_config();
    let ps = write_paragraphs(&mut f, &cfg, url);
    assert!(ps[1].contains("1 § I denna förordning finns bestämmelser om stöd"));
    assert!(ps[1].contains("- 8 kap. 7 § regeringsformen i fråga om övriga bestämmelser."));
    assert!(ps[15].contains("Beslut enligt denna förordning får inte överklagas."));
}

#[test]
fn paragraph_indices_are_dense() {
    let ps = segment_text(&reference_law_text());
    assert_eq!(ps.len(), 16);
    for (i, p) in ps.iter().enumerate() {
        assert!(p.starts_with(&format!("{} §", i)));
    }
}

#[test]
fn segmentation_is_deterministic() {
    let raw = reference_law_text();
    let first = segment_text(&raw);
    let second = segment_text(&raw);
    assert_eq!(first, second);
}

#[test]
fn document_without_markers_is_one_paragraph() {
    let ps = segment_text("En text utan paragraftecken alls.");
    assert_eq!(ps.len(), 1);
    assert_eq!(ps[0], "0 §En text utan paragraftecken alls.");
}

#[test]
fn midline_section_sign_does_not_split() {
    let ps = segment_text("Se 7 § ovan.\nMer text h\u{e4}r.");
    assert_eq!(ps.len(), 1);
}

#[test]
fn clean_full_text_removes_tabs_and_newlines() {
    let cleaned = clean_full_text("\ta\nb\tc\n");
    assert_eq!(cleaned, "abc");
    assert!(cleaned.len() <= "\ta\nb\tc\n".len());
}

#[test]
fn empty_body_yields_no_paragraphs() {
    let mut f = reference_law_stub();
    let cfg = standard_config();
    let ps = write_paragraphs(&mut f, &cfg, "http://rkrattsbaser.gov.se/sfst?bet=1900:1");
    assert_eq!(ps.len(), 0);
}

#[test]
fn extraction_reads_attribute_values() {
    let html = "<p><a class=\"x\" href=\"one\">1</a><a class=\"x\" href=\"two\">2</a><a class=\"x\" href=\"three\">3</a></p>";
    let r = extract_from_body(html, 1, 2, "a.x", "href");
    assert_eq!(r, vec![String::from("two"), String::from("three")]);
}

#[test]
fn extraction_aborts_on_missing_attribute() {
    let html = "<p><a class=\"x\" href=\"one\">1</a><a class=\"x\">2</a></p>";
    let r = extract_from_body(html, 0, 2, "a.x", "href");
    assert_eq!(r.len(), 0);
}

#[test]
fn extraction_trims_text_nodes() {
    let html = "<div class=\"b\">\n\thello world\n</div>";
    let r = extract_from_body(html, 0, 1, "div.b", "");
    assert_eq!(r, vec![String::from("hello world")]);
}
