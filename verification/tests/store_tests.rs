use consensusmind::feed::ArxivPaper;
use consensusmind::store::{MetadataStore, PaperMetadata};

fn record(id: &str, title: &str) -> ArxivPaper {
    ArxivPaper {
        id: String::from(id),
        title: String::from(title),
        authors: vec![String::from("Ann")],
        abstract_text: String::from("About things."),
        published: 1704067200,
        updated: 1704153600,
        pdf_url: String::from("http://arxiv.org/pdf/x.pdf"),
        categories: Vec::new(),
    }
}

fn fresh_meta(id: &str, title: &str) -> PaperMetadata {
    PaperMetadata::from_record(&record(id, title))
}

#[test]
fn either_identifier_form_resolves_to_the_same_entry() {
    let mut store = MetadataStore::new(String::from("data/test_metadata.json"));
    store.add_paper(fresh_meta("http://arxiv.org/abs/1234.5678", "T"));
    assert_eq!(store.count(), 1);
    assert!(store.get_paper("http://arxiv.org/abs/1234.5678").is_some());
    assert!(store.get_paper("1234.5678").is_some());
    let a = store.get_paper("http://arxiv.org/abs/1234.5678").unwrap();
    assert_eq!(a.arxiv_id, "1234.5678");
    let b = store.get_paper("1234.5678").unwrap();
    assert_eq!(b.arxiv_id, "1234.5678");
    // marking through the long form shows up through the short form
    store.mark_downloaded("http://arxiv.org/abs/1234.5678", "data/papers/1234.5678.pdf", 10);
    assert!(store.is_downloaded("1234.5678"));
}

#[test]
fn merge_rule_keeps_download_provenance() {
    let mut store = MetadataStore::new(String::from("data/test_metadata.json"));
    store.add_paper(fresh_meta("http://arxiv.org/abs/1234.5678", "Old title"));
    store.mark_downloaded_at("1234.5678", "data/papers/1234.5678.pdf", 2048, 1704240000);
    // re-ingest the same paper: the incoming metadata has no download fields
    store.add_paper(fresh_meta("http://arxiv.org/abs/1234.5678", "New title"));
    assert_eq!(store.count(), 1);
    let m = store.get_paper("1234.5678").unwrap();
    assert_eq!(m.title, "New title");
    assert_eq!(m.pdf_path.as_ref().unwrap(), "data/papers/1234.5678.pdf");
    assert_eq!(m.downloaded_at, Some(1704240000));
    assert_eq!(m.file_size, Some(2048));
}

#[test]
fn replacing_an_undownloaded_entry_overwrites_it() {
    let mut store = MetadataStore::new(String::from("data/test_metadata.json"));
    store.add_paper(fresh_meta("http://arxiv.org/abs/7.7", "Old"));
    store.add_paper(fresh_meta("http://arxiv.org/abs/7.7", "New"));
    assert_eq!(store.count(), 1);
    let m = store.get_paper("7.7").unwrap();
    assert_eq!(m.title, "New");
    assert_eq!(m.pdf_path, None);
}

#[test]
fn mark_downloaded_without_entry_is_a_silent_noop() {
    let mut store = MetadataStore::new(String::from("data/test_metadata.json"));
    store.add_paper(fresh_meta("http://arxiv.org/abs/1.1", "T"));
    assert_eq!(store.count(), 1);
    store.mark_downloaded("9999.0000", "data/papers/9999.0000.pdf", 5);
    assert_eq!(store.count(), 1);
    assert_eq!(store.count_downloaded(), 0);
    assert!(store.get_paper("9999.0000").is_none());
}

#[test]
fn accessors_report_the_stored_state() {
    let mut store = MetadataStore::new(String::from("data/test_metadata.json"));
    assert_eq!(store.count(), 0);
    assert_eq!(store.count_downloaded(), 0);
    store.add_paper(fresh_meta("http://arxiv.org/abs/1.1", "A"));
    store.add_paper(fresh_meta("http://arxiv.org/abs/2.2", "B"));
    assert_eq!(store.count(), 2);
    assert_eq!(store.list_papers().len(), 2);
    assert!(!store.is_downloaded("1.1"));
    store.mark_downloaded_at("1.1", "data/papers/1.1.pdf", 7, 1704240000);
    assert!(store.is_downloaded("1.1"));
    assert!(!store.is_downloaded("2.2"));
    assert_eq!(store.count_downloaded(), 1);
}

#[test]
fn from_record_normalizes_and_carries_fields() {
    let m = fresh_meta("http://arxiv.org/abs/2401.00001", "Title");
    assert_eq!(m.arxiv_id, "2401.00001");
    assert_eq!(m.title, "Title");
    assert_eq!(m.authors, vec![String::from("Ann")]);
    assert_eq!(m.published, 1704067200);
    assert_eq!(m.pdf_path, None);
    assert_eq!(m.downloaded_at, None);
    assert_eq!(m.file_size, None);
}

#[test]
fn ingest_then_download_scenario() {
    let mut store = MetadataStore::new(String::from("data/test_metadata.json"));
    let papers = vec![
        record("http://arxiv.org/abs/1111.0001", "One"),
        record("http://arxiv.org/abs/1111.0002", "Two"),
        record("http://arxiv.org/abs/1111.0003", "Three"),
    ];
    consensusmind::client::ingest_papers(&mut store, &papers);
    assert_eq!(store.count(), 3);
    assert_eq!(store.count_downloaded(), 0);
    let plan = consensusmind::fetch::plan_download(&papers[0], "data/papers", false);
    assert!(plan.fetch);
    store.mark_downloaded(&papers[0].id, plan.filepath.as_str(), 4096);
    assert_eq!(store.count_downloaded(), 1);
    assert!(store.is_downloaded(&papers[0].id));
    assert!(!store.is_downloaded(&papers[1].id));
    assert!(!store.is_downloaded(&papers[2].id));
    let m = store.get_paper(&papers[0].id).unwrap();
    assert_eq!(m.pdf_path.as_ref().unwrap(), "data/papers/1111.0001.pdf");
}
