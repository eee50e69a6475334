use consensusmind::feed::ArxivPaper;
use consensusmind::json::JsonError;
use consensusmind::store::{MetadataStore, PaperMetadata};

fn record(id: &str, title: &str) -> ArxivPaper {
    ArxivPaper {
        id: String::from(id),
        title: String::from(title),
        authors: vec![String::from("Ann"), String::from("Bob")],
        abstract_text: String::from("An \"abstract\" with a back\\slash."),
        published: 1704067200,
        updated: -10,
        pdf_url: String::from("http://arxiv.org/pdf/x.pdf"),
        categories: vec![String::from("cs.DC")],
    }
}

#[test]
fn save_then_load_reproduces_every_field() {
    let mut store = MetadataStore::new(String::from("data/test_metadata.json"));
    store.add_paper(PaperMetadata::from_record(&record(
        "http://arxiv.org/abs/1234.5678",
        "Quoted \"title\"",
    )));
    store.add_paper(PaperMetadata::from_record(&record(
        "http://arxiv.org/abs/2345.6789",
        "Plain title",
    )));
    store.mark_downloaded_at("1234.5678", "data/papers/1234.5678.pdf", 2048, 1704240000);
    let text = store.to_json();
    let loaded = MetadataStore::from_json(String::from("data/test_metadata.json"), text.as_str())
        .unwrap();
    assert_eq!(loaded.count(), 2);
    assert_eq!(loaded.count_downloaded(), 1);
    let a = loaded.get_paper("1234.5678").unwrap();
    assert_eq!(a.arxiv_id, "1234.5678");
    assert_eq!(a.title, "Quoted \"title\"");
    assert_eq!(a.authors, vec![String::from("Ann"), String::from("Bob")]);
    assert_eq!(a.abstract_text, "An \"abstract\" with a back\\slash.");
    assert_eq!(a.published, 1704067200);
    assert_eq!(a.updated, -10);
    assert_eq!(a.categories, vec![String::from("cs.DC")]);
    assert_eq!(a.pdf_path.as_ref().unwrap(), "data/papers/1234.5678.pdf");
    assert_eq!(a.downloaded_at, Some(1704240000));
    assert_eq!(a.file_size, Some(2048));
    let b = loaded.get_paper("2345.6789").unwrap();
    assert_eq!(b.title, "Plain title");
    assert_eq!(b.pdf_path, None);
    assert_eq!(b.downloaded_at, None);
    assert_eq!(b.file_size, None);
    // a second round keeps the text stable
    assert_eq!(loaded.to_json(), text);
}

#[test]
fn empty_store_round_trips() {
    let store = MetadataStore::new(String::from("p"));
    let text = store.to_json();
    assert_eq!(text, "{}");
    let loaded = MetadataStore::from_json(String::from("p"), text.as_str()).unwrap();
    assert_eq!(loaded.count(), 0);
}

#[test]
fn malformed_text_is_a_hard_failure() {
    let r = MetadataStore::from_json(String::from("p"), "{not json");
    assert!(matches!(r, Err(JsonError::Malformed)));
    let r2 = MetadataStore::from_json(String::from("p"), "");
    assert!(matches!(r2, Err(JsonError::Malformed)));
    // trailing garbage after the document is refused too
    let r3 = MetadataStore::from_json(String::from("p"), "{}x");
    assert!(matches!(r3, Err(JsonError::Malformed)));
}

#[test]
fn a_repeated_identifier_is_refused() {
    let one = "\"a\":{\"arxiv_id\":\"a\",\"title\":\"\",\"authors\":[],\"abstract_text\":\"\",\"published\":0,\"updated\":0,\"categories\":[],\"pdf_path\":null,\"downloaded_at\":null,\"file_size\":null}";
    let mut text = String::from("{\n  ");
    text.push_str(one);
    text.push_str(",\n  ");
    text.push_str(one);
    text.push_str("\n}");
    let text = text.as_str();
    let r = MetadataStore::from_json(String::from("p"), text);
    assert!(matches!(r, Err(JsonError::Malformed)));
}

#[test]
fn an_oversized_file_size_is_refused() {
    let text = "{\n  \"a\":{\"arxiv_id\":\"a\",\"title\":\"\",\"authors\":[],\"abstract_text\":\"\",\"published\":0,\"updated\":0,\"categories\":[],\"pdf_path\":\"p\",\"downloaded_at\":1,\"file_size\":99999999999999999999999999}\n}";
    let r = MetadataStore::from_json(String::from("p"), text);
    assert!(matches!(r, Err(JsonError::Malformed)));
}

#[test]
fn a_single_entry_document_parses() {
    let text = "{\n  \"a\":{\"arxiv_id\":\"a\",\"title\":\"T\",\"authors\":[\"X\"],\"abstract_text\":\"S\",\"published\":-5,\"updated\":12,\"categories\":[],\"pdf_path\":null,\"downloaded_at\":null,\"file_size\":null}\n}";
    let store = MetadataStore::from_json(String::from("p"), text).unwrap();
    assert_eq!(store.count(), 1);
    let m = store.get_paper("a").unwrap();
    assert_eq!(m.title, "T");
    assert_eq!(m.published, -5);
    assert_eq!(m.updated, 12);
}

#[test]
fn the_document_is_pretty_printed_line_per_entry() {
    let mut store = MetadataStore::new(String::from("p"));
    store.add_paper(PaperMetadata::from_record(&record("http://arxiv.org/abs/1.1", "A")));
    store.add_paper(PaperMetadata::from_record(&record("http://arxiv.org/abs/2.2", "B")));
    let text = store.to_json();
    assert!(text.starts_with("{\n  "));
    assert!(text.contains(",\n  "));
    assert!(text.ends_with("\n}"));
}

#[test]
fn control_characters_round_trip_escaped() {
    let mut store = MetadataStore::new(String::from("p"));
    let mut r = record("http://arxiv.org/abs/9.1", "T");
    r.abstract_text = String::from("line one\nline two\ttabbed\rdone");
    store.add_paper(PaperMetadata::from_record(&r));
    let text = store.to_json();
    // control characters never sit raw inside a string literal
    assert!(text.contains("\\u000a"));
    assert!(text.contains("\\u0009"));
    assert!(text.contains("\\u000d"));
    let loaded = MetadataStore::from_json(String::from("p"), text.as_str()).unwrap();
    assert_eq!(
        loaded.get_paper("9.1").unwrap().abstract_text,
        "line one\nline two\ttabbed\rdone"
    );
}
