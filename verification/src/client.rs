use vstd::prelude::*;

use crate::feed::{paper_views, ArxivPaper, RecordV};
use crate::store::{meta_of_record, spec_add, MetaV, MetadataStore, PaperMetadata};
use crate::strutil::{spec_udec, u64_to_string};

verus! {

/// The fixed base endpoint of the remote feed.
pub open spec fn spec_base_url() -> Seq<char> {
    "https://export.arxiv.org/api/query"@
}

/// The percent-encoded form of a query string.
pub uninterp spec fn percent_enc_of(s: Seq<char>) -> Seq<char>;

/// Relies on urlencoding::encode: percent-encodes every byte outside
/// the unreserved set; the result depends on the characters alone.
#[verifier::external_body]
fn url_encode(s: &str) -> (r: String)
    ensures
        r@ == percent_enc_of(s@),
{
    urlencoding::encode(s).into_owned()
}

/// The request URL of one paginated search: the percent-encoded query
/// with the zero-based offset and the result-count cap.
pub open spec fn spec_search_url(q: Seq<char>, start: nat, max_results: nat) -> Seq<char> {
    spec_base_url() + "?search_query="@ + percent_enc_of(q) + "&start="@ + spec_udec(start)
        + "&max_results="@ + spec_udec(max_results)
}

/// Builds the request URL for one paginated search.
pub fn build_search_url(query: &str, max_results: usize, start: usize) -> (r: String)
    ensures
        r@ == spec_search_url(query@, start as nat, max_results as nat),
{
    let mut r = String::from_str("https://export.arxiv.org/api/query?search_query=");
    let enc = url_encode(query);
    r.append(enc.as_str());
    r.append("&start=");
    let s1 = u64_to_string(start as u64);
    r.append(s1.as_str());
    r.append("&max_results=");
    let s2 = u64_to_string(max_results as u64);
    r.append(s2.as_str());
    proof {
        reveal_strlit("https://export.arxiv.org/api/query?search_query=");
        reveal_strlit("https://export.arxiv.org/api/query");
        reveal_strlit("?search_query=");
        assert("https://export.arxiv.org/api/query?search_query="@ =~= spec_base_url()
            + "?search_query="@);
        assert(r@ =~= spec_search_url(query@, start as nat, max_results as nat));
    }
    r
}

/// The mapping after ingesting a whole result list, front first, each
/// record converted and inserted under the merge rule.
pub open spec fn spec_ingest(m: Map<Seq<char>, MetaV>, rs: Seq<RecordV>) -> Map<Seq<char>, MetaV>
    decreases rs.len(),
{
    if rs.len() == 0 {
        m
    } else {
        spec_ingest(spec_add(m, meta_of_record(rs[0])), rs.skip(1))
    }
}

/// Converts each search result into persisted metadata and inserts it
/// under the merge rule, in feed order: ingestion with persistence in
/// one pass.
pub fn ingest_papers(store: &mut MetadataStore, papers: &Vec<ArxivPaper>)
    requires
        old(store).wf(),
    ensures
        final(store).wf(),
        final(store)@ == spec_ingest(old(store)@, paper_views(papers@)),
{
    let ghost rs = paper_views(papers@);
    let n: usize = papers.len();
    let mut i: usize = 0;
    proof {
        assert(rs.skip(0) =~= rs);
    }
    while i < n
        invariant
            0 <= i <= n,
            n == papers@.len(),
            rs == paper_views(papers@),
            store.wf(),
            spec_ingest(store@, rs.skip(i as int)) == spec_ingest(old(store)@, rs),
        decreases n - i,
    {
        proof {
            assert(rs.skip(i as int)[0] == rs[i as int]);
            assert(rs[i as int] == papers@[i as int]@);
            assert(rs.skip(i as int).skip(1) =~= rs.skip(i + 1));
        }
        let m = PaperMetadata::from_record(&papers[i]);
        store.add_paper(m);
        i = i + 1;
    }
    proof {
        assert(rs.skip(n as int) =~= Seq::<RecordV>::empty());
    }
}

} // verus!
