use consensusmind::client::build_search_url;
use consensusmind::feed::{derive_pdf_url, ArxivPaper};
use consensusmind::fetch::{pdf_filename, plan_download};
use consensusmind::ids::{normalize_id, replace_colons};
use consensusmind::prompts::Prompts;
use consensusmind::strutil::{i64_to_string, str_eq, trim, u64_to_string};
use consensusmind::textmeta::PdfParser;

#[test]
fn normalization_takes_the_final_path_segment() {
    assert_eq!(normalize_id("http://arxiv.org/abs/1234.5678"), "1234.5678");
    assert_eq!(normalize_id("1234.5678"), "1234.5678");
    assert_eq!(normalize_id("a/b/c"), "c");
    assert_eq!(normalize_id("abc/"), "");
    assert_eq!(normalize_id(""), "");
    // normalizing twice changes nothing more
    let once = normalize_id("http://arxiv.org/abs/1234.5678");
    assert_eq!(normalize_id(once.as_str()), once);
}

#[test]
fn filenames_replace_colons_and_add_the_suffix() {
    assert_eq!(replace_colons("hep-th:9901001"), "hep-th_9901001");
    assert_eq!(pdf_filename("http://arxiv.org/abs/hep-th:9901001"), "hep-th_9901001.pdf");
    assert_eq!(pdf_filename("1234.5678"), "1234.5678.pdf");
}

#[test]
fn the_pdf_url_rewrites_the_view_segment() {
    assert_eq!(
        derive_pdf_url("http://arxiv.org/abs/1234.5678"),
        "http://arxiv.org/pdf/1234.5678.pdf"
    );
    assert_eq!(derive_pdf_url("no-segment"), "no-segment.pdf");
}

#[test]
fn search_urls_carry_the_encoded_query_and_pagination() {
    let url = build_search_url("blockchain consensus", 10, 0);
    assert_eq!(
        url,
        "https://export.arxiv.org/api/query?search_query=blockchain%20consensus&start=0&max_results=10"
    );
}

fn record(id: &str) -> ArxivPaper {
    ArxivPaper {
        id: String::from(id),
        title: String::from("T"),
        authors: Vec::new(),
        abstract_text: String::from("S"),
        published: 0,
        updated: 0,
        pdf_url: String::from("http://arxiv.org/pdf/1234.5678.pdf"),
        categories: Vec::new(),
    }
}

#[test]
fn a_second_download_reuses_the_path_without_fetching() {
    let p = record("http://arxiv.org/abs/1234.5678");
    let first = plan_download(&p, "data/papers", false);
    assert!(first.fetch);
    assert_eq!(first.url, "http://arxiv.org/pdf/1234.5678.pdf");
    assert_eq!(first.filepath, "data/papers/1234.5678.pdf");
    // after the first download the file exists at that very path
    let second = plan_download(&p, "data/papers", true);
    assert!(!second.fetch);
    assert_eq!(second.filepath, first.filepath);
}

#[test]
fn joined_paths_keep_a_single_separator() {
    let p = record("x:y");
    let plan = plan_download(&p, "dir/", true);
    assert_eq!(plan.filepath, "dir/x_y.pdf");
    let plan2 = plan_download(&p, "", true);
    assert_eq!(plan2.filepath, "x_y.pdf");
}

#[test]
fn text_metadata_counts_and_heuristics() {
    let parser = PdfParser::new();
    let text = "   \nA Modest Proposal For Counting\nshort\nABSTRACT and more\nwords here";
    let m = parser.extract_metadata(text);
    assert_eq!(m.char_count, text.len());
    assert_eq!(m.word_count, 11);
    assert_eq!(m.line_count, 5);
    assert_eq!(m.title.as_ref().unwrap(), "A Modest Proposal For Counting");
    // the abstract line is found although its case differs
    assert_eq!(m.abstract_start, Some(3));
}

#[test]
fn empty_text_has_no_counts() {
    let parser = PdfParser::default();
    let m = parser.extract_metadata("");
    assert_eq!(m.char_count, 0);
    assert_eq!(m.word_count, 0);
    assert_eq!(m.line_count, 0);
    assert!(m.title.is_none());
    assert!(m.abstract_start.is_none());
}

#[test]
fn prompts_compose_the_query() {
    let q = Prompts::format_user_query("What is new?");
    let sp = Prompts::system_prompt();
    assert!(q.starts_with(sp));
    assert!(q.ends_with("\n\nWhat is new?"));
    assert_eq!(q.len(), sp.len() + 2 + "What is new?".len());
}

#[test]
fn small_string_helpers_behave() {
    assert_eq!(u64_to_string(0), "0");
    assert_eq!(u64_to_string(18446744073709551615), "18446744073709551615");
    assert_eq!(i64_to_string(-42), "-42");
    assert_eq!(i64_to_string(i64::MIN), "-9223372036854775808");
    assert_eq!(trim("  a b \t"), "a b");
    assert_eq!(trim("\u{00A0}x\u{00A0}"), "x");
    assert!(str_eq("abc", "abc"));
    assert!(!str_eq("abc", "abd"));
}
