use lawharvest::fetch::main_page_links;
use lawharvest::fetch::standard_config;
use lawharvest::fetch::Fetcher;

/// Serves one canned index page under its exact index URL; anything else
/// fetches as empty, like a failed request.
struct IndexStub {
    expect_url: String,
    html: String,
}

impl Fetcher for IndexStub {
    fn fetch(&mut self, url: &str) -> String {
        if url == self.expect_url {
            self.html.clone()
        } else {
            String::new()
        }
    }
}

fn index_page_html(hrefs: &[String]) -> String {
    let mut h = String::from(
        "<html><body><a class=\"sc-3189427c-0\" href=\"#not-a-law\">ignored</a>",
    );
    for href in hrefs {
        h.push_str(&format!("<a class=\"sc-3189427c-0\" href=\"{}\">law</a>", href));
    }
    h.push_str("</body></html>");
    h
}

fn filler_links(n: usize) -> Vec<String> {
    let mut v = Vec::new();
    for i in 0..n {
        v.push(format!("https://www.riksdagen.se/sv/dokument-och-lagar/placeholder-{}/", i));
    }
    v
}

fn index_stub(page: u64, hrefs: &[String]) -> IndexStub {
    IndexStub {
        expect_url: format!(
            "https://www.riksdagen.se/sv/sok/?doktyp=sfs&dokstat=g%C3%A4llande+sfs&p={}",
            page
        ),
        html: index_page_html(hrefs),
    }
}

#[test]
fn first_link_is_correct() {
    let mut hrefs = filler_links(20);
    hrefs[0] = String::from("https://www.riksdagen.se/sv/dokument-och-lagar/dokument/svensk-forfattningssamling/tillkannagivande-2023954-av-uppgift-om_sfs-2023-954/");
    hrefs[19] = String::from("https://www.riksdagen.se/sv/dokument-och-lagar/dokument/svensk-forfattningssamling/lag-2023714-om-forvarv-och-forvaltning-av_sfs-2023-714/");
    let mut f = index_stub(1, &hrefs);
    let cfg = standard_config();
    let p1 = main_page_links(&mut f, &cfg, 1, 20);

    assert_eq!(p1[0], "https://www.riksdagen.se/sv/dokument-och-lagar/dokument/svensk-forfattningssamling/tillkannagivande-2023954-av-uppgift-om_sfs-2023-954/");
    assert_eq!(p1[19], "https://www.riksdagen.se/sv/dokument-och-lagar/dokument/svensk-forfattningssamling/lag-2023714-om-forvarv-och-forvaltning-av_sfs-2023-714/");
}

#[test]
fn is_wrong() {
    let mut hrefs = filler_links(20);
    hrefs[0] = String::from("https://www.riksdagen.se/sv/dokument-och-lagar/dokument/svensk-forfattningssamling/tillkannagivande-2023954-av-uppgift-om_sfs-2023-954/");
    let mut f = index_stub(1, &hrefs);
    let cfg = standard_config();
    let p1 = main_page_links(&mut f, &cfg, 1, 20);

    assert_ne!(p1[0], "not a link");
}

#[test]
fn first_link_last_page_is_correct() {
    let mut hrefs = filler_links(20);
    hrefs[0] = String::from("https://www.riksdagen.se/sv/dokument-och-lagar/dokument/svensk-forfattningssamling/for-riksbankens-styrelse-och-forvaltning_c5s0riksb/");
    hrefs[19] = String::from("https://www.riksdagen.se/sv/dokument-och-lagar/dokument/svensk-forfattningssamling/byggningabalk-17360123-1_sfs-1736-0123%201/");
    let mut f = index_stub(268, &hrefs);
    let cfg = standard_config();
    let p1 = main_page_links(&mut f, &cfg, 268, 20);

    assert_eq!(p1[0], "https://www.riksdagen.se/sv/dokument-och-lagar/dokument/svensk-forfattningssamling/for-riksbankens-styrelse-och-forvaltning_c5s0riksb/");
    assert_eq!(p1[19], "https://www.riksdagen.se/sv/dokument-och-lagar/dokument/svensk-forfattningssamling/byggningabalk-17360123-1_sfs-1736-0123%201/");
}

#[test]
fn link_random_page_is_correct() {
    let mut hrefs = filler_links(20);
    hrefs[0] = String::from("https://www.riksdagen.se/sv/dokument-och-lagar/dokument/svensk-forfattningssamling/forordning-2006421-om-sakerhet-i-vagtunnlar_sfs-2006-421/");
    hrefs[10] = String::from("https://www.riksdagen.se/sv/dokument-och-lagar/dokument/svensk-forfattningssamling/lag-2006323-om-utbyte-av-sprutor-och-kanyler_sfs-2006-323/");
    hrefs[19] = String::from("https://www.riksdagen.se/sv/dokument-och-lagar/dokument/svensk-forfattningssamling/lag-2006228-med-sarskilda-bestammelser-om_sfs-2006-228/");
    let mut f = index_stub(123, &hrefs);
    let cfg = standard_config();
    let p1 = main_page_links(&mut f, &cfg, 123, 20);

    assert_eq!(p1[0], "https://www.riksdagen.se/sv/dokument-och-lagar/dokument/svensk-forfattningssamling/forordning-2006421-om-sakerhet-i-vagtunnlar_sfs-2006-421/");
    assert_eq!(p1[19], "https://www.riksdagen.se/sv/dokument-och-lagar/dokument/svensk-forfattningssamling/lag-2006228-med-sarskilda-bestammelser-om_sfs-2006-228/");
    assert_eq!(p1[10], "https://www.riksdagen.se/sv/dokument-och-lagar/dokument/svensk-forfattningssamling/lag-2006323-om-utbyte-av-sprutor-och-kanyler_sfs-2006-323/");
}

#[test]
fn failed_fetch_lists_nothing() {
    let mut f = index_stub(1, &filler_links(20));
    let cfg = standard_config();
    // Asking for a different page hits a URL the stub does not serve, which
    // fetches as an empty body.
    let p2 = main_page_links(&mut f, &cfg, 2, 20);
    assert_eq!(p2.len(), 0);
}
