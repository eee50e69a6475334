use vstd::prelude::*;

use crate::feed::{ArxivPaper, RecordV};
use crate::ids::{normalize_id, replace_colons, spec_file_stem, spec_normalize_id};
use crate::strutil::push_char;

verus! {

/// The file name a paper's document is stored under: the normalized
/// identifier with colons replaced by underscores, and a `.pdf` suffix.
pub open spec fn spec_pdf_filename(id: Seq<char>) -> Seq<char> {
    spec_file_stem(spec_normalize_id(id)) + ".pdf"@
}

/// Derives the local file name for an identifier.
pub fn pdf_filename(arxiv_id: &str) -> (r: String)
    ensures
        r@ == spec_pdf_filename(arxiv_id@),
{
    let nid = normalize_id(arxiv_id);
    let mut r = replace_colons(nid.as_str());
    push_char(&mut r, '.');
    push_char(&mut r, 'p');
    push_char(&mut r, 'd');
    push_char(&mut r, 'f');
    proof {
        reveal_strlit(".pdf");
        assert(r@ =~= spec_file_stem(spec_normalize_id(arxiv_id@)) + ".pdf"@);
    }
    r
}

/// A directory joined with a file name, a single `/` between them.
pub open spec fn spec_join_path(dir: Seq<char>, name: Seq<char>) -> Seq<char> {
    if dir.len() == 0 {
        name
    } else if dir.last() == '/' {
        dir + name
    } else {
        dir + seq!['/'] + name
    }
}

/// Joins a caller-chosen output directory with a file name.
pub fn join_path(dir: &str, name: &str) -> (r: String)
    ensures
        r@ == spec_join_path(dir@, name@),
{
    let n: usize = dir.unicode_len();
    if n == 0 {
        let r = name.to_owned();
        proof {
            assert(dir@.len() == 0);
        }
        r
    } else {
        let mut r = dir.to_owned();
        if dir.get_char(n - 1) != '/' {
            push_char(&mut r, '/');
            r.append(name);
            proof {
                assert(r@ =~= dir@ + seq!['/'] + name@);
            }
            r
        } else {
            r.append(name);
            r
        }
    }
}

/// What one download call will do, decided before any outside work.
pub struct DownloadPlan {
    /// Whether a network transfer is needed at all.
    pub fetch: bool,
    /// The URL to fetch when a transfer is needed.
    pub url: String,
    /// The local path the document lives at, fetched or not.
    pub filepath: String,
}

/// The mathematical value of a download plan.
#[verifier::ext_equal]
pub ghost struct PlanV {
    pub fetch: bool,
    pub url: Seq<char>,
    pub filepath: Seq<char>,
}

impl View for DownloadPlan {
    type V = PlanV;

    open spec fn view(&self) -> PlanV {
        PlanV { fetch: self.fetch, url: self.url@, filepath: self.filepath@ }
    }
}

/// The plan for one record: fetch exactly when no file already sits at
/// the derived path; either way the same derived path is the result.
pub open spec fn spec_plan(r: RecordV, dir: Seq<char>, file_exists: bool) -> PlanV {
    PlanV {
        fetch: !file_exists,
        url: r.pdf_url,
        filepath: spec_join_path(dir, spec_pdf_filename(r.id)),
    }
}

/// Decides one download: with the file already present the plan reuses
/// its path and asks for no transfer; otherwise it names the record's
/// document URL and the path to write.
pub fn plan_download(paper: &ArxivPaper, output_dir: &str, file_exists: bool) -> (r: DownloadPlan)
    ensures
        r@ == spec_plan(paper@, output_dir@, file_exists),
{
    let name = pdf_filename(paper.id.as_str());
    let filepath = join_path(output_dir, name.as_str());
    let r = DownloadPlan { fetch: !file_exists, url: paper.pdf_url.clone(), filepath };
    proof {
        assert(r@ =~= spec_plan(paper@, output_dir@, file_exists));
    }
    r
}

/// A second download of the same record into the same directory, made
/// after the first has put the file in place, asks for no transfer and
/// names exactly the path the first download wrote.
pub proof fn lemma_second_download_reuses_path(r: RecordV, dir: Seq<char>)
    ensures
        !spec_plan(r, dir, true).fetch,
        spec_plan(r, dir, true).filepath == spec_plan(r, dir, false).filepath,
{
}

} // verus!
