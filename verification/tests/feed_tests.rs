use consensusmind::feed::{parse_response, parse_response_at, parse_tokens, ArxivError, FeedToken};

fn entry(id: &str, title: &str, author: &str, published: &str) -> String {
    let mut s = String::new();
    s.push_str("<entry><id>");
    s.push_str(id);
    s.push_str("</id><author><name>");
    s.push_str(author);
    s.push_str("</name></author><title>");
    s.push_str(title);
    s.push_str("</title><summary>Sum</summary><published>");
    s.push_str(published);
    s.push_str("</published></entry>");
    s
}

#[test]
fn parses_three_entries_with_derived_pdf_urls() {
    let mut xml = String::from("<feed>");
    xml.push_str(&entry(
        "http://arxiv.org/abs/1234.5678",
        "Alpha",
        "Ann",
        "2024-01-01T00:00:00Z",
    ));
    xml.push_str(&entry(
        "http://arxiv.org/abs/2345.6789",
        "Beta",
        "Bob",
        "2024-01-02T00:00:00Z",
    ));
    xml.push_str(&entry(
        "http://arxiv.org/abs/3456.7890",
        "Gamma",
        "Cyd",
        "2024-01-03T00:00:00Z",
    ));
    xml.push_str("</feed>");
    let papers = parse_response(xml.as_str()).unwrap();
    assert_eq!(papers.len(), 3);
    assert_eq!(papers[0].id, "http://arxiv.org/abs/1234.5678");
    assert_eq!(papers[0].title, "Alpha");
    assert_eq!(papers[0].pdf_url, "http://arxiv.org/pdf/1234.5678.pdf");
    assert_eq!(papers[1].pdf_url, "http://arxiv.org/pdf/2345.6789.pdf");
    assert_eq!(papers[2].pdf_url, "http://arxiv.org/pdf/3456.7890.pdf");
    assert_eq!(papers[0].authors[0], "Ann");
    assert_eq!(papers[0].published, 1704067200);
    assert_eq!(papers[0].abstract_text, "Sum");
}

#[test]
fn unparseable_published_defaults_to_parse_time() {
    let mut xml = String::from("<feed>");
    xml.push_str(&entry("http://arxiv.org/abs/1.2", "T", "A", "not-a-date"));
    xml.push_str("</feed>");
    let now: i64 = 424242;
    let papers = parse_response_at(xml.as_str(), now).unwrap();
    assert_eq!(papers.len(), 1);
    assert_eq!(papers[0].published, now);
    assert!(papers[0].published >= now);
}

#[test]
fn missing_dates_default_to_parse_time() {
    let xml = "<feed><entry><id>http://arxiv.org/abs/9.9</id><title>T</title></entry></feed>";
    let now: i64 = 77;
    let papers = parse_response_at(xml, now).unwrap();
    assert_eq!(papers.len(), 1);
    assert_eq!(papers[0].published, 77);
    assert_eq!(papers[0].updated, 77);
}

#[test]
fn parsed_rfc3339_dates_become_epoch_seconds() {
    let mut xml = String::from("<feed>");
    xml.push_str(&entry(
        "http://arxiv.org/abs/1.2",
        "T",
        "A",
        "2024-01-01T00:00:00Z",
    ));
    xml.push_str("</feed>");
    let papers = parse_response_at(xml.as_str(), 0).unwrap();
    // the wrapper around chrono must really have parsed the text
    assert_eq!(papers[0].published, 1704067200);
}

#[test]
fn malformed_xml_is_a_hard_failure() {
    let r = parse_response("<feed><entry></feed>");
    assert!(matches!(r, Err(ArxivError::XmlParseFailed(_))));
}

#[test]
fn empty_document_yields_no_records() {
    let papers = parse_response("<feed></feed>").unwrap();
    assert_eq!(papers.len(), 0);
}

#[test]
fn parse_tokens_mirrors_the_flat_machine() {
    let tokens = vec![
        FeedToken::Start(String::from("feed")),
        FeedToken::Start(String::from("entry")),
        FeedToken::Start(String::from("id")),
        FeedToken::Text(String::from("  abs/42  ")),
        FeedToken::End(String::from("id")),
        FeedToken::Start(String::from("link")),
        FeedToken::End(String::from("link")),
        FeedToken::End(String::from("entry")),
        FeedToken::End(String::from("feed")),
    ];
    let papers = parse_tokens(&tokens, 5);
    assert_eq!(papers.len(), 1);
    // the text was trimmed before it was consumed
    assert_eq!(papers[0].id, "abs/42");
    assert_eq!(papers[0].published, 5);
    assert_eq!(papers[0].pdf_url, "abs/42.pdf");
}

#[test]
fn entities_in_text_are_unescaped() {
    let xml = "<feed><entry><id>a</id><title>A &amp; B</title><x></x></entry></feed>";
    let papers = parse_response_at(xml, 0).unwrap();
    assert_eq!(papers.len(), 1);
    assert_eq!(papers[0].title, "A & B");
}

#[test]
fn text_outside_entries_is_ignored() {
    let tokens = vec![
        FeedToken::Text(String::from("noise")),
        FeedToken::Start(String::from("entry")),
        FeedToken::End(String::from("entry")),
    ];
    let papers = parse_tokens(&tokens, 0);
    assert_eq!(papers.len(), 1);
    assert_eq!(papers[0].id, "");
}
