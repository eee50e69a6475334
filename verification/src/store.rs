use vstd::prelude::*;

use crate::feed::{now_sec, ArxivPaper};
use crate::ids::{lemma_normalize_idempotent, normalize_id, spec_normalize_id};
use crate::strutil::{clone_strings, str_eq};

verus! {

/// The persisted, store-resident representation of a paper, enriched
/// with download provenance. The three download-related fields are all
/// present or all absent.
pub struct PaperMetadata {
    /// The canonical short identifier: the final path segment of the
    /// feed-supplied identifier.
    pub arxiv_id: String,
    pub title: String,
    pub authors: Vec<String>,
    pub abstract_text: String,
    /// Seconds since the Unix epoch.
    pub published: i64,
    /// Seconds since the Unix epoch.
    pub updated: i64,
    pub categories: Vec<String>,
    pub pdf_path: Option<String>,
    /// Seconds since the Unix epoch.
    pub downloaded_at: Option<i64>,
    pub file_size: Option<u64>,
}

/// The mathematical value of a persisted paper.
#[verifier::ext_equal]
pub ghost struct MetaV {
    pub arxiv_id: Seq<char>,
    pub title: Seq<char>,
    pub authors: Seq<Seq<char>>,
    pub abstract_text: Seq<char>,
    pub published: int,
    pub updated: int,
    pub categories: Seq<Seq<char>>,
    pub pdf_path: Option<Seq<char>>,
    pub downloaded_at: Option<int>,
    pub file_size: Option<int>,
}

impl View for PaperMetadata {
    type V = MetaV;

    open spec fn view(&self) -> MetaV {
        MetaV {
            arxiv_id: self.arxiv_id@,
            title: self.title@,
            authors: self.authors.deep_view(),
            abstract_text: self.abstract_text@,
            published: self.published as int,
            updated: self.updated as int,
            categories: self.categories.deep_view(),
            pdf_path: match self.pdf_path {
                Some(p) => Some(p@),
                None => None,
            },
            downloaded_at: match self.downloaded_at {
                Some(t) => Some(t as int),
                None => None,
            },
            file_size: match self.file_size {
                Some(n) => Some(n as int),
                None => None,
            },
        }
    }
}

/// Well-formedness of one persisted paper: download provenance is
/// atomic, and the identifier is already in canonical short form.
pub open spec fn wf_meta(m: MetaV) -> bool {
    &&& (m.pdf_path is Some <==> m.downloaded_at is Some)
    &&& (m.pdf_path is Some <==> m.file_size is Some)
    &&& m.arxiv_id == spec_normalize_id(m.arxiv_id)
    &&& i64::MIN <= m.published <= i64::MAX
    &&& i64::MIN <= m.updated <= i64::MAX
    &&& match m.downloaded_at {
        Some(t) => i64::MIN <= t <= i64::MAX,
        None => true,
    }
    &&& match m.file_size {
        Some(n) => 0 <= n <= u64::MAX,
        None => true,
    }
}

/// The views of a sequence of persisted papers.
pub open spec fn metas(s: Seq<PaperMetadata>) -> Seq<MetaV> {
    s.map_values(|m: PaperMetadata| m@)
}

/// The mapping a sequence of entries denotes, later entries winning.
pub open spec fn entries_map(s: Seq<MetaV>) -> Map<Seq<char>, MetaV>
    decreases s.len(),
{
    if s.len() == 0 {
        Map::empty()
    } else {
        entries_map(s.drop_last()).insert(s.last().arxiv_id, s.last())
    }
}

/// No two entries share an identifier.
pub open spec fn unique_ids(s: Seq<MetaV>) -> bool {
    forall|i: int, j: int| #![trigger s[i], s[j]]
        0 <= i < j < s.len() ==> s[i].arxiv_id != s[j].arxiv_id
}

pub proof fn lemma_entries_map_contains(s: Seq<MetaV>, k: Seq<char>)
    ensures
        entries_map(s).contains_key(k) <==> exists|i: int|
            0 <= i < s.len() && (#[trigger] s[i]).arxiv_id == k,
    decreases s.len(),
{
    if s.len() > 0 {
        let t = s.drop_last();
        lemma_entries_map_contains(t, k);
        if entries_map(s).contains_key(k) {
            if k == s.last().arxiv_id {
                assert(s[s.len() - 1].arxiv_id == k);
            } else {
                let i = choose|i: int| 0 <= i < t.len() && (#[trigger] t[i]).arxiv_id == k;
                assert(s[i].arxiv_id == k);
            }
        }
        if exists|i: int| 0 <= i < s.len() && (#[trigger] s[i]).arxiv_id == k {
            let i = choose|i: int| 0 <= i < s.len() && (#[trigger] s[i]).arxiv_id == k;
            if i < s.len() - 1 {
                assert(t[i].arxiv_id == k);
            }
        }
    }
}

pub proof fn lemma_entries_map_index(s: Seq<MetaV>, i: int)
    requires
        unique_ids(s),
        0 <= i < s.len(),
    ensures
        entries_map(s).contains_key(s[i].arxiv_id),
        entries_map(s)[s[i].arxiv_id] == s[i],
    decreases s.len(),
{
    if i < s.len() - 1 {
        let t = s.drop_last();
        lemma_entries_map_index(t, i);
        assert(s[i].arxiv_id != s[s.len() - 1].arxiv_id);
    }
}

pub proof fn lemma_entries_map_len(s: Seq<MetaV>)
    requires
        unique_ids(s),
    ensures
        entries_map(s).dom().finite(),
        entries_map(s).len() == s.len(),
    decreases s.len(),
{
    broadcast use vstd::set::axiom_set_insert_len;

    if s.len() > 0 {
        let t = s.drop_last();
        lemma_entries_map_len(t);
        lemma_entries_map_contains(t, s.last().arxiv_id);
        assert(forall|i: int| 0 <= i < t.len() ==> (#[trigger] t[i]).arxiv_id != s.last().arxiv_id)
            by {
            assert(forall|i: int|
                0 <= i < t.len() ==> (#[trigger] s[i]).arxiv_id != s[s.len() - 1].arxiv_id);
        }
        assert(!entries_map(t).contains_key(s.last().arxiv_id));
    }
}

pub proof fn lemma_entries_map_update(s: Seq<MetaV>, i: int, m: MetaV)
    requires
        unique_ids(s),
        0 <= i < s.len(),
        m.arxiv_id == s[i].arxiv_id,
    ensures
        entries_map(s.update(i, m)) == entries_map(s).insert(m.arxiv_id, m),
    decreases s.len(),
{
    let s2 = s.update(i, m);
    if i == s.len() - 1 {
        assert(s2.drop_last() =~= s.drop_last());
        assert(s2.last() == m);
        assert(entries_map(s2) =~= entries_map(s).insert(m.arxiv_id, m));
    } else {
        assert(s2.drop_last() =~= s.drop_last().update(i, m));
        assert(s2.last() == s.last());
        lemma_entries_map_update(s.drop_last(), i, m);
        assert(m.arxiv_id != s.last().arxiv_id);
        assert(entries_map(s2) =~= entries_map(s).insert(m.arxiv_id, m));
    }
}

/// The keys whose entries carry download provenance.
pub open spec fn downloaded_keys(m: Map<Seq<char>, MetaV>) -> Set<Seq<char>> {
    m.dom().filter(|k: Seq<char>| m[k].pdf_path is Some)
}

/// For entries without repeated identifiers, the sequence-level
/// downloaded count is the size of the mapping's downloaded-key set.
pub proof fn lemma_count_downloaded_map(s: Seq<MetaV>)
    requires
        unique_ids(s),
    ensures
        entries_map(s).dom().finite(),
        downloaded_keys(entries_map(s)).finite(),
        spec_count_downloaded(s) == downloaded_keys(entries_map(s)).len(),
    decreases s.len(),
{
    broadcast use vstd::set::axiom_set_insert_len;

    lemma_entries_map_len(s);
    if s.len() == 0 {
        assert(downloaded_keys(entries_map(s)) =~= Set::<Seq<char>>::empty());
    } else {
        let t = s.drop_last();
        let last = s.last();
        lemma_count_downloaded_map(t);
        assert(forall|i: int| 0 <= i < t.len() ==> (#[trigger] t[i]).arxiv_id != last.arxiv_id)
            by {
            assert(forall|i: int|
                0 <= i < t.len() ==> (#[trigger] s[i]).arxiv_id != s[s.len() - 1].arxiv_id);
        }
        lemma_entries_map_contains(t, last.arxiv_id);
        assert(!entries_map(t).contains_key(last.arxiv_id));
        let mt = entries_map(t);
        let ms = entries_map(s);
        if last.pdf_path is Some {
            assert(downloaded_keys(ms) =~= downloaded_keys(mt).insert(last.arxiv_id));
            assert(!downloaded_keys(mt).contains(last.arxiv_id));
        } else {
            assert(downloaded_keys(ms) =~= downloaded_keys(mt));
        }
    }
}

/// Marking an existing, not-yet-downloaded entry adds exactly its key
/// to the downloaded set: the count rises by one, the domain is
/// unchanged, and every other entry keeps its value.
pub proof fn lemma_mark_adds_one_download(
    m: Map<Seq<char>, MetaV>,
    id: Seq<char>,
    path: Seq<char>,
    size: int,
    now: int,
)
    requires
        m.dom().finite(),
        m.contains_key(spec_normalize_id(id)),
        m[spec_normalize_id(id)].pdf_path is None,
    ensures
        ({
            let m2 = spec_mark(m, id, path, size, now);
            let nid = spec_normalize_id(id);
            &&& m2.dom() == m.dom()
            &&& downloaded_keys(m2) == downloaded_keys(m).insert(nid)
            &&& downloaded_keys(m2).len() == downloaded_keys(m).len() + 1
            &&& forall|k: Seq<char>| m.contains_key(k) && k != nid ==> m2[k] == m[k]
        }),
{
    broadcast use vstd::set::axiom_set_insert_len;

    let nid = spec_normalize_id(id);
    let m2 = spec_mark(m, id, path, size, now);
    assert(m2.dom() =~= m.dom());
    assert(downloaded_keys(m2) =~= downloaded_keys(m).insert(nid));
    assert(!downloaded_keys(m).contains(nid));
    m.dom().lemma_len_filter(|k: Seq<char>| m[k].pdf_path is Some);
}

/// A durable, keyed collection of paper metadata. The mapping itself is
/// the verified state; mirroring it to the backing document is the
/// caller's duty after every mutating call.
pub struct MetadataStore {
    metadata_path: String,
    papers: Vec<PaperMetadata>,
}

/// The merged entry the store keeps when `meta` is inserted: if the
/// existing entry was already marked downloaded, its download
/// provenance overrides the incoming one; everything else is incoming.
pub open spec fn spec_merged(m: Map<Seq<char>, MetaV>, meta: MetaV) -> MetaV {
    if m.contains_key(meta.arxiv_id) && m[meta.arxiv_id].pdf_path is Some {
        MetaV {
            pdf_path: m[meta.arxiv_id].pdf_path,
            downloaded_at: m[meta.arxiv_id].downloaded_at,
            file_size: m[meta.arxiv_id].file_size,
            ..meta
        }
    } else {
        meta
    }
}

/// The mapping after an insert under the merge rule.
pub open spec fn spec_add(m: Map<Seq<char>, MetaV>, meta: MetaV) -> Map<Seq<char>, MetaV> {
    m.insert(meta.arxiv_id, spec_merged(m, meta))
}

/// The mapping after marking an identifier downloaded: the normalized
/// id's entry gains full provenance; an absent id changes nothing.
pub open spec fn spec_mark(
    m: Map<Seq<char>, MetaV>,
    id: Seq<char>,
    path: Seq<char>,
    size: int,
    now: int,
) -> Map<Seq<char>, MetaV> {
    let nid = spec_normalize_id(id);
    if m.contains_key(nid) {
        m.insert(
            nid,
            MetaV {
                pdf_path: Some(path),
                downloaded_at: Some(now),
                file_size: Some(size),
                ..m[nid]
            },
        )
    } else {
        m
    }
}

impl View for MetadataStore {
    type V = Map<Seq<char>, MetaV>;

    closed spec fn view(&self) -> Map<Seq<char>, MetaV> {
        entries_map(metas(self.papers@))
    }
}

impl MetadataStore {
    /// The entries in insertion order.
    pub closed spec fn entries(&self) -> Seq<MetaV> {
        metas(self.papers@)
    }

    /// The store's internal invariant.
    pub closed spec fn wf(&self) -> bool {
        &&& unique_ids(self.entries())
        &&& forall|i: int| 0 <= i < self.entries().len() ==> wf_meta(#[trigger] self.entries()[i])
    }

    /// An empty store bound to a backing path; the caller loads any
    /// existing document and persists after each mutation.
    pub fn new(metadata_path: String) -> (r: Self)
        ensures
            r.wf(),
            r@ == Map::<Seq<char>, MetaV>::empty(),
            r@.dom().finite(),
            r.entries().len() == 0,
    {
        let r = MetadataStore { metadata_path, papers: Vec::new() };
        proof {
            assert(metas(r.papers@) =~= Seq::<MetaV>::empty());
            assert(r@.dom() =~= Set::<Seq<char>>::empty());
        }
        r
    }

    /// The path of the backing document this store was bound to.
    pub fn path(&self) -> (r: &String) {
        &self.metadata_path
    }

    fn find_index(&self, id: &str) -> (r: Option<usize>)
        ensures
            match r {
                Some(j) => j < self.entries().len() && self.entries()[j as int].arxiv_id == id@,
                None => forall|i: int|
                    0 <= i < self.entries().len() ==> (#[trigger] self.entries()[i]).arxiv_id
                        != id@,
            },
    {
        let n: usize = self.papers.len();
        let mut i: usize = 0;
        while i < n
            invariant
                0 <= i <= n,
                n == self.papers@.len(),
                forall|k: int|
                    0 <= k < i ==> (#[trigger] metas(self.papers@)[k]).arxiv_id != id@,
            decreases n - i,
        {
            if str_eq(self.papers[i].arxiv_id.as_str(), id) {
                return Some(i);
            }
            i = i + 1;
        }
        None
    }

    /// Inserts metadata under the merge rule: re-ingesting search
    /// results never erases prior download provenance.
    pub fn add_paper(&mut self, metadata: PaperMetadata)
        requires
            old(self).wf(),
            wf_meta(metadata@),
        ensures
            final(self).wf(),
            final(self)@ == spec_add(old(self)@, metadata@),
            final(self)@.dom().finite(),
    {
        let ghost s0 = metas(self.papers@);
        let idx = self.find_index(metadata.arxiv_id.as_str());
        match idx {
            Some(j) => {
                proof {
                    lemma_entries_map_index(s0, j as int);
                }
                let existing = self.papers.remove(j);
                let mut m = metadata;
                if existing.pdf_path.is_some() {
                    m.pdf_path = existing.pdf_path;
                    m.downloaded_at = existing.downloaded_at;
                    m.file_size = existing.file_size;
                }
                self.papers.insert(j, m);
                proof {
                    let s2 = metas(self.papers@);
                    assert(s2 =~= s0.update(j as int, s2[j as int]));
                    assert(s2[j as int] =~~= spec_merged(entries_map(s0), metadata@));
                    lemma_entries_map_update(s0, j as int, s2[j as int]);
                    assert(unique_ids(s2));
                    assert(forall|i: int| 0 <= i < s2.len() ==> wf_meta(#[trigger] s2[i]));
                    lemma_entries_map_len(s2);
                }
            },
            None => {
                self.papers.push(metadata);
                proof {
                    let s2 = metas(self.papers@);
                    assert(s2 =~= s0.push(metadata@));
                    assert(s2.drop_last() =~= s0);
                    lemma_entries_map_contains(s0, metadata@.arxiv_id);
                    assert(!entries_map(s0).contains_key(metadata@.arxiv_id));
                    assert(unique_ids(s2));
                    assert(forall|i: int| 0 <= i < s2.len() ==> wf_meta(#[trigger] s2[i]));
                    lemma_entries_map_len(s2);
                }
            },
        }
    }

    /// Marks the entry of the normalized identifier as downloaded at a
    /// caller-supplied instant; with no entry it changes nothing and is
    /// no error.
    pub fn mark_downloaded_at(&mut self, arxiv_id: &str, pdf_path: &str, file_size: u64, now: i64)
        requires
            old(self).wf(),
        ensures
            final(self).wf(),
            final(self)@ == spec_mark(
                old(self)@,
                arxiv_id@,
                pdf_path@,
                file_size as int,
                now as int,
            ),
            final(self)@.dom().finite(),
    {
        let ghost s0 = metas(self.papers@);
        let nid = normalize_id(arxiv_id);
        let idx = self.find_index(nid.as_str());
        match idx {
            Some(j) => {
                proof {
                    lemma_entries_map_index(s0, j as int);
                }
                let mut m = self.papers.remove(j);
                m.pdf_path = Some(pdf_path.to_owned());
                m.downloaded_at = Some(now);
                m.file_size = Some(file_size);
                self.papers.insert(j, m);
                proof {
                    let s2 = metas(self.papers@);
                    assert(s2 =~= s0.update(j as int, s2[j as int]));
                    assert(s2[j as int] =~~= MetaV {
                        pdf_path: Some(pdf_path@),
                        downloaded_at: Some(now as int),
                        file_size: Some(file_size as int),
                        ..entries_map(s0)[spec_normalize_id(arxiv_id@)]
                    });
                    lemma_entries_map_update(s0, j as int, s2[j as int]);
                    assert(unique_ids(s2));
                    assert(forall|i: int| 0 <= i < s2.len() ==> wf_meta(#[trigger] s2[i]));
                    lemma_entries_map_len(s2);
                }
            },
            None => {
                proof {
                    lemma_entries_map_contains(s0, spec_normalize_id(arxiv_id@));
                    lemma_entries_map_len(metas(self.papers@));
                }
            },
        }
    }

    /// Marks the entry of the normalized identifier as downloaded now.
    pub fn mark_downloaded(&mut self, arxiv_id: &str, pdf_path: &str, file_size: u64)
        requires
            old(self).wf(),
        ensures
            final(self).wf(),
            final(self)@.dom().finite(),
            exists|t: int|
                final(self)@ == spec_mark(old(self)@, arxiv_id@, pdf_path@, file_size as int, t),
            !old(self)@.contains_key(spec_normalize_id(arxiv_id@)) ==> final(self)@ == old(
                self,
            )@,
    {
        let now = now_sec();
        self.mark_downloaded_at(arxiv_id, pdf_path, file_size, now);
        proof {
            assert(self@ == spec_mark(
                old(self)@,
                arxiv_id@,
                pdf_path@,
                file_size as int,
                now as int,
            ));
        }
    }

    /// The entry of the normalized identifier, if any.
    pub fn get_paper(&self, arxiv_id: &str) -> (r: Option<&PaperMetadata>)
        requires
            self.wf(),
        ensures
            match r {
                Some(m) => self@.contains_key(spec_normalize_id(arxiv_id@)) && m@ == self@[
                    spec_normalize_id(arxiv_id@)
                ],
                None => !self@.contains_key(spec_normalize_id(arxiv_id@)),
            },
    {
        let nid = normalize_id(arxiv_id);
        let idx = self.find_index(nid.as_str());
        match idx {
            Some(j) => {
                proof {
                    lemma_entries_map_index(self.entries(), j as int);
                }
                Some(&self.papers[j])
            },
            None => {
                proof {
                    lemma_entries_map_contains(self.entries(), spec_normalize_id(arxiv_id@));
                }
                None
            },
        }
    }

    /// Whether the normalized identifier's entry carries a local file
    /// path.
    pub fn is_downloaded(&self, arxiv_id: &str) -> (r: bool)
        requires
            self.wf(),
        ensures
            r == (self@.contains_key(spec_normalize_id(arxiv_id@)) && self@[spec_normalize_id(
                arxiv_id@,
            )].pdf_path is Some),
    {
        match self.get_paper(arxiv_id) {
            Some(m) => m.pdf_path.is_some(),
            None => false,
        }
    }

    /// All entries, in insertion order.
    pub fn list_papers(&self) -> (r: Vec<&PaperMetadata>)
        ensures
            r@.len() == self.entries().len(),
            forall|i: int| 0 <= i < r@.len() ==> (#[trigger] r@[i])@ == self.entries()[i],
    {
        let mut r: Vec<&PaperMetadata> = Vec::new();
        let n: usize = self.papers.len();
        let mut i: usize = 0;
        while i < n
            invariant
                0 <= i <= n,
                n == self.papers@.len(),
                r@.len() == i,
                forall|k: int| 0 <= k < i ==> (#[trigger] r@[k])@ == metas(self.papers@)[k],
            decreases n - i,
        {
            r.push(&self.papers[i]);
            i = i + 1;
        }
        r
    }

    /// How many papers the store holds.
    pub fn count(&self) -> (r: usize)
        requires
            self.wf(),
        ensures
            r == self.entries().len(),
            r == self@.len(),
    {
        proof {
            lemma_entries_map_len(self.entries());
        }
        self.papers.len()
    }

    /// Serializes the full mapping as the backing document text; the
    /// caller overwrites the backing file with it after every mutation.
    pub fn to_json(&self) -> (r: String)
        ensures
            r@ == crate::json::pdoc(self.entries()),
    {
        crate::json::meta_vec_to_json(&self.papers)
    }

    /// Rebuilds a store from the backing document text; malformed text
    /// is a hard failure and yields no store at all.
    pub fn from_json(metadata_path: String, s: &str) -> (r: Result<MetadataStore, crate::json::JsonError>)
        ensures
            match r {
                Ok(st) => st.wf() && st@.dom().finite() && crate::json::spec_from_json(s@)
                    == Some(st.entries()),
                Err(_) => crate::json::spec_from_json(s@) is None,
            },
    {
        match crate::json::meta_vec_from_json(s) {
            Ok(v) => {
                proof {
                    lemma_entries_map_len(metas(v@));
                }
                Ok(MetadataStore { metadata_path, papers: v })
            },
            Err(e) => Err(e),
        }
    }

    /// Saving this store and loading the text back yields exactly its
    /// entries: the backing document loses nothing.
    pub proof fn lemma_round_trip(self)
        requires
            self.wf(),
        ensures
            crate::json::spec_from_json(crate::json::pdoc(self.entries())) == Some(
                self.entries(),
            ),
    {
        crate::json::lemma_save_load_round_trip(self.entries());
    }

    /// The map view is exactly the mapping the entry sequence denotes;
    /// a well-formed store moreover has unique, well-formed entries and
    /// a finite domain.
    pub proof fn lemma_view_is_entries(&self)
        ensures
            self@ == entries_map(self.entries()),
            self.wf() ==> unique_ids(self.entries()),
            self.wf() ==> (forall|i: int|
                0 <= i < self.entries().len() ==> wf_meta(#[trigger] self.entries()[i])),
            self.wf() ==> self@.dom().finite(),
    {
        if self.wf() {
            lemma_entries_map_len(self.entries());
        }
    }

    /// How many entries carry download provenance.
    pub fn count_downloaded(&self) -> (r: usize)
        ensures
            r == spec_count_downloaded(self.entries()),
            self.wf() ==> r == downloaded_keys(self@).len(),
    {
        proof {
            if self.wf() {
                lemma_count_downloaded_map(self.entries());
            }
        }
        let n: usize = self.papers.len();
        let mut c: usize = 0;
        let mut i: usize = 0;
        while i < n
            invariant
                0 <= i <= n,
                n == self.papers@.len(),
                c <= i,
                c == spec_count_downloaded(metas(self.papers@).take(i as int)),
            decreases n - i,
        {
            let ghost pre = metas(self.papers@).take(i as int);
            let ghost pre1 = metas(self.papers@).take(i + 1);
            proof {
                assert(pre1.drop_last() =~= pre);
                assert(pre1.last() == metas(self.papers@)[i as int]);
            }
            if self.papers[i].pdf_path.is_some() {
                c = c + 1;
            }
            i = i + 1;
        }
        proof {
            assert(metas(self.papers@).take(n as int) =~= metas(self.papers@));
        }
        c
    }
}

/// How many entries of a sequence carry a local file path.
pub open spec fn spec_count_downloaded(s: Seq<MetaV>) -> nat
    decreases s.len(),
{
    if s.len() == 0 {
        0
    } else {
        spec_count_downloaded(s.drop_last()) + (if s.last().pdf_path is Some {
            1nat
        } else {
            0nat
        })
    }
}

/// The persisted form of a freshly parsed record: the canonical short
/// identifier, the record's fields, and no download provenance.
pub open spec fn meta_of_record(r: crate::feed::RecordV) -> MetaV {
    MetaV {
        arxiv_id: spec_normalize_id(r.id),
        title: r.title,
        authors: r.authors,
        abstract_text: r.abstract_text,
        published: r.published,
        updated: r.updated,
        categories: r.categories,
        pdf_path: None,
        downloaded_at: None,
        file_size: None,
    }
}

impl PaperMetadata {
    /// Converts a parsed record into its persisted form.
    pub fn from_record(paper: &ArxivPaper) -> (r: PaperMetadata)
        ensures
            r@ == meta_of_record(paper@),
            wf_meta(r@),
    {
        let r = PaperMetadata {
            arxiv_id: normalize_id(paper.id.as_str()),
            title: paper.title.clone(),
            authors: clone_strings(&paper.authors),
            abstract_text: paper.abstract_text.clone(),
            published: paper.published,
            updated: paper.updated,
            categories: clone_strings(&paper.categories),
            pdf_path: None,
            downloaded_at: None,
            file_size: None,
        };
        proof {
            assert(r@ =~~= meta_of_record(paper@));
            lemma_normalize_idempotent(paper.id@);
        }
        r
    }
}

/// Re-ingesting metadata for an identifier that was already marked
/// downloaded keeps the stored provenance: after adding `a` (downloaded)
/// and then `b` (same identifier), the entry holds `a`'s path, instant
/// and size, and `b`'s other fields.
pub proof fn lemma_merge_preserves_download(m: Map<Seq<char>, MetaV>, a: MetaV, b: MetaV)
    requires
        a.pdf_path is Some,
        b.arxiv_id == a.arxiv_id,
        !m.contains_key(a.arxiv_id) || m[a.arxiv_id].pdf_path is None,
    ensures
        ({
            let m2 = spec_add(spec_add(m, a), b);
            &&& m2.contains_key(a.arxiv_id)
            &&& m2[a.arxiv_id].pdf_path == a.pdf_path
            &&& m2[a.arxiv_id].downloaded_at == a.downloaded_at
            &&& m2[a.arxiv_id].file_size == a.file_size
            &&& m2[a.arxiv_id].title == b.title
            &&& m2[a.arxiv_id].authors == b.authors
            &&& m2[a.arxiv_id].abstract_text == b.abstract_text
            &&& m2[a.arxiv_id].published == b.published
            &&& m2[a.arxiv_id].updated == b.updated
            &&& m2[a.arxiv_id].categories == b.categories
        }),
{
    let m1 = spec_add(m, a);
    assert(m1[a.arxiv_id] == a);
}

/// Marking an identifier that has no entry leaves the whole mapping,
/// and so the store's count, unchanged; it is not an error.
pub proof fn lemma_mark_absent_is_noop(
    m: Map<Seq<char>, MetaV>,
    id: Seq<char>,
    path: Seq<char>,
    size: int,
    now: int,
)
    requires
        !m.contains_key(spec_normalize_id(id)),
    ensures
        spec_mark(m, id, path, size, now) == m,
        spec_mark(m, id, path, size, now).len() == m.len(),
{
}

} // verus!
