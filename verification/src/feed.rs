use vstd::prelude::*;

use crate::strutil::{push_char, str_eq, trim, spec_trim};
use quick_xml::events::Event;
use quick_xml::Reader;

verus! {

/// The failures the retrieval pipeline can report.
#[derive(Debug)]
pub enum ArxivError {
    /// The transport reported a failure or a non-success status.
    RequestFailed(String),
    /// The feed payload could not be tokenized; partial results are discarded.
    XmlParseFailed(String),
    /// The fixed inter-request delay was not honoured.
    RateLimitExceeded,
    /// A filesystem operation failed.
    IoError(String),
    /// Fetching a document failed, with the status and URL.
    DownloadFailed(String),
    /// The metadata store reported a failure.
    MetadataError(String),
}

/// One XML token of a feed response, as the flat state machine sees it.
pub enum FeedToken {
    /// A start tag, with its name.
    Start(String),
    /// Character data, already unescaped.
    Text(String),
    /// An end tag, with its name.
    End(String),
    /// Any other event: comments, declarations, empty tags.
    Other,
}

/// The mathematical value of a feed token.
#[verifier::ext_equal]
pub ghost enum TokenV {
    Start(Seq<char>),
    Text(Seq<char>),
    End(Seq<char>),
    Other,
}

impl View for FeedToken {
    type V = TokenV;

    open spec fn view(&self) -> TokenV {
        match self {
            FeedToken::Start(s) => TokenV::Start(s@),
            FeedToken::Text(s) => TokenV::Text(s@),
            FeedToken::End(s) => TokenV::End(s@),
            FeedToken::Other => TokenV::Other,
        }
    }
}

/// One paper as parsed from a feed entry, immutable once emitted.
pub struct ArxivPaper {
    pub id: String,
    pub title: String,
    pub authors: Vec<String>,
    pub abstract_text: String,
    /// Seconds since the Unix epoch.
    pub published: i64,
    /// Seconds since the Unix epoch.
    pub updated: i64,
    pub pdf_url: String,
    pub categories: Vec<String>,
}

/// The mathematical value of a paper record.
#[verifier::ext_equal]
pub ghost struct RecordV {
    pub id: Seq<char>,
    pub title: Seq<char>,
    pub authors: Seq<Seq<char>>,
    pub abstract_text: Seq<char>,
    pub published: int,
    pub updated: int,
    pub pdf_url: Seq<char>,
    pub categories: Seq<Seq<char>>,
}

impl View for ArxivPaper {
    type V = RecordV;

    open spec fn view(&self) -> RecordV {
        RecordV {
            id: self.id@,
            title: self.title@,
            authors: self.authors.deep_view(),
            abstract_text: self.abstract_text@,
            published: self.published as int,
            updated: self.updated as int,
            pdf_url: self.pdf_url@,
            categories: self.categories.deep_view(),
        }
    }
}

/// The views of a vector of tokens.
pub open spec fn token_views(ts: Seq<FeedToken>) -> Seq<TokenV> {
    ts.map_values(|t: FeedToken| t@)
}

/// The views of a vector of papers.
pub open spec fn paper_views(ps: Seq<ArxivPaper>) -> Seq<RecordV> {
    ps.map_values(|p: ArxivPaper| p@)
}

/// `s` with every occurrence of `/abs/` rewritten to `/pdf/`, leftmost
/// first, as `str::replace` gives it.
pub open spec fn spec_replace_abs(s: Seq<char>) -> Seq<char>
    decreases s.len(),
{
    if s.len() < 5 {
        s
    } else if s.take(5) == "/abs/"@ {
        "/pdf/"@ + spec_replace_abs(s.skip(5))
    } else {
        seq![s[0]] + spec_replace_abs(s.skip(1))
    }
}

/// The document URL derived from an identifier: the abstract-view path
/// segment rewritten to its pdf equivalent, with a `.pdf` suffix.
pub open spec fn spec_pdf_url(id: Seq<char>) -> Seq<char> {
    spec_replace_abs(id) + ".pdf"@
}

fn abs_at(s: &str, i: usize) -> (r: bool)
    requires
        i + 5 <= s@.len(),
        s@.len() <= usize::MAX,
    ensures
        r == (s@.skip(i as int).take(5) == "/abs/"@),
{
    let hit = s.get_char(i) == '/' && s.get_char(i + 1) == 'a' && s.get_char(i + 2) == 'b'
        && s.get_char(i + 3) == 's' && s.get_char(i + 4) == '/';
    proof {
        reveal_strlit("/abs/");
        let w = s@.skip(i as int).take(5);
        assert(w.len() == 5);
        assert(forall|k: int| 0 <= k < 5 ==> w[k] == s@[i + k]);
        if hit {
            assert(w =~= "/abs/"@);
        } else if w == "/abs/"@ {
            assert(w[0] == '/' && w[1] == 'a' && w[2] == 'b' && w[3] == 's' && w[4] == '/');
            assert(false);
        }
    }
    hit
}

/// Rewrites every `/abs/` segment of `s` to `/pdf/`.
fn replace_abs(s: &str) -> (r: String)
    ensures
        r@ == spec_replace_abs(s@),
{
    let n: usize = s.unicode_len();
    let mut r = String::new();
    let mut i: usize = 0;
    proof {
        assert(s@.skip(0) =~= s@);
    }
    while i < n
        invariant
            0 <= i <= n,
            n == s@.len(),
            spec_replace_abs(s@) == r@ + spec_replace_abs(s@.skip(i as int)),
        decreases n - i,
    {
        let ghost rem = s@.skip(i as int);
        let ghost r0 = r@;
        if n - i >= 5 && abs_at(s, i) {
            push_char(&mut r, '/');
            push_char(&mut r, 'p');
            push_char(&mut r, 'd');
            push_char(&mut r, 'f');
            push_char(&mut r, '/');
            proof {
                reveal_strlit("/pdf/");
                assert(r@ =~= r0 + "/pdf/"@);
                assert(rem.skip(5) =~= s@.skip(i + 5));
                assert(spec_replace_abs(rem) == "/pdf/"@ + spec_replace_abs(rem.skip(5)));
                assert(r0 + ("/pdf/"@ + spec_replace_abs(rem.skip(5))) =~= (r0 + "/pdf/"@)
                    + spec_replace_abs(rem.skip(5)));
            }
            i = i + 5;
        } else {
            let c = s.get_char(i);
            push_char(&mut r, c);
            proof {
                assert(rem[0] == s@[i as int]);
                assert(rem.skip(1) =~= s@.skip(i + 1));
                if rem.len() >= 5 {
                    assert(spec_replace_abs(rem) == seq![rem[0]] + spec_replace_abs(rem.skip(1)));
                } else {
                    // too short for a match: both sides are the remainder itself
                    assert(spec_replace_abs(rem) == rem);
                    assert(spec_replace_abs(rem.skip(1)) == rem.skip(1));
                    assert(rem =~= seq![rem[0]] + rem.skip(1));
                }
                assert(r0 + (seq![rem[0]] + spec_replace_abs(rem.skip(1))) =~= (r0.push(rem[0]))
                    + spec_replace_abs(rem.skip(1)));
            }
            i = i + 1;
        }
    }
    proof {
        assert(s@.skip(n as int) =~= Seq::<char>::empty());
        assert(spec_replace_abs(Seq::<char>::empty()) =~= Seq::<char>::empty());
        assert(r@ + Seq::<char>::empty() =~= r@);
    }
    r
}

/// Derives the document URL for an identifier.
pub fn derive_pdf_url(id: &str) -> (r: String)
    ensures
        r@ == spec_pdf_url(id@),
{
    let mut r = replace_abs(id);
    push_char(&mut r, '.');
    push_char(&mut r, 'p');
    push_char(&mut r, 'd');
    push_char(&mut r, 'f');
    proof {
        reveal_strlit(".pdf");
        assert(r@ =~= spec_replace_abs(id@) + ".pdf"@);
    }
    r
}

/// The instant an RFC 3339 date-time string denotes, in seconds since
/// the Unix epoch, or nothing when the string is not well-formed.
pub uninterp spec fn rfc3339_sec_of(s: Seq<char>) -> Option<i64>;

/// Relies on chrono's `DateTime::parse_from_rfc3339` and `timestamp`:
/// whether a string is a well-formed RFC 3339 date-time, and which
/// instant it denotes, depend on the characters alone.
#[verifier::external_body]
pub fn parse_rfc3339_sec(s: &str) -> (r: Option<i64>)
    ensures
        r == rfc3339_sec_of(s@),
{
    match chrono::DateTime::parse_from_rfc3339(s) {
        Ok(dt) => Some(dt.timestamp()),
        Err(_) => None,
    }
}

/// Relies on chrono's `Utc::now` and `timestamp`: the wall-clock time in
/// seconds since the Unix epoch; nothing is assumed of the value.
#[verifier::external_body]
pub fn now_sec() -> i64 {
    chrono::Utc::now().timestamp()
}

/// The state of the flat, order-dependent tag-to-field machine.
#[verifier::ext_equal]
pub ghost struct StateV {
    pub in_entry: bool,
    pub cur: Option<RecordV>,
    pub cur_tag: Seq<char>,
    pub cur_text: Seq<char>,
    pub out: Seq<RecordV>,
}

/// The record a fresh entry starts from: empty fields, both timestamps
/// defaulted to the parse-time clock.
pub open spec fn fresh_record(now: int) -> RecordV {
    RecordV {
        id: Seq::<char>::empty(),
        title: Seq::<char>::empty(),
        authors: Seq::<Seq<char>>::empty(),
        abstract_text: Seq::<char>::empty(),
        published: now,
        updated: now,
        pdf_url: Seq::<char>::empty(),
        categories: Seq::<Seq<char>>::empty(),
    }
}

/// The state before any token is consumed.
pub open spec fn init_state() -> StateV {
    StateV {
        in_entry: false,
        cur: None,
        cur_tag: Seq::<char>::empty(),
        cur_text: Seq::<char>::empty(),
        out: Seq::<RecordV>::empty(),
    }
}

/// What a close tag does with the pending text, decided by the last
/// remembered start-tag name, not by the closing tag itself.
pub open spec fn spec_dispatch(r: RecordV, tag: Seq<char>, text: Seq<char>) -> RecordV {
    if tag == "id"@ {
        RecordV { id: text, ..r }
    } else if tag == "title"@ {
        RecordV { title: text, ..r }
    } else if tag == "summary"@ {
        RecordV { abstract_text: text, ..r }
    } else if tag == "published"@ {
        match rfc3339_sec_of(text) {
            Some(t) => RecordV { published: t as int, ..r },
            None => r,
        }
    } else if tag == "updated"@ {
        match rfc3339_sec_of(text) {
            Some(t) => RecordV { updated: t as int, ..r },
            None => r,
        }
    } else if tag == "name"@ {
        RecordV { authors: r.authors.push(text), ..r }
    } else {
        r
    }
}

/// The emitted form of a record: its document URL derived from the
/// identifier.
pub open spec fn spec_finalize(r: RecordV) -> RecordV {
    RecordV { pdf_url: spec_pdf_url(r.id), ..r }
}

/// One step of the machine on one token.
pub open spec fn spec_step(st: StateV, t: TokenV, now: int) -> StateV {
    match t {
        TokenV::Start(name) => {
            let st1 = StateV { cur_tag: name, ..st };
            if name == "entry"@ {
                StateV { in_entry: true, cur: Some(fresh_record(now)), ..st1 }
            } else {
                st1
            }
        },
        TokenV::Text(s) => {
            if st.in_entry {
                StateV { cur_text: spec_trim(s), ..st }
            } else {
                st
            }
        },
        TokenV::End(name) => {
            let st1 = if st.in_entry {
                let st_d = match st.cur {
                    Some(r) => StateV {
                        cur: Some(spec_dispatch(r, st.cur_tag, st.cur_text)),
                        ..st
                    },
                    None => st,
                };
                if name == "entry"@ {
                    match st_d.cur {
                        Some(r) => StateV {
                            in_entry: false,
                            cur: None,
                            out: st_d.out.push(spec_finalize(r)),
                            ..st_d
                        },
                        None => StateV { in_entry: false, cur: None, ..st_d },
                    }
                } else {
                    st_d
                }
            } else {
                st
            };
            StateV { cur_text: Seq::<char>::empty(), ..st1 }
        },
        TokenV::Other => st,
    }
}

/// Runs the machine over a whole token sequence.
pub open spec fn spec_run(st: StateV, ts: Seq<TokenV>, now: int) -> StateV
    decreases ts.len(),
{
    if ts.len() == 0 {
        st
    } else {
        spec_run(spec_step(st, ts[0], now), ts.skip(1), now)
    }
}

/// The records a token sequence parses to, in feed order.
pub open spec fn spec_parse_tokens(ts: Seq<TokenV>, now: int) -> Seq<RecordV> {
    spec_run(init_state(), ts, now).out
}

/// The view of an optional record under construction.
pub open spec fn view_opt(c: Option<ArxivPaper>) -> Option<RecordV> {
    match c {
        Some(p) => Some(p@),
        None => None,
    }
}

fn fresh_paper(now: i64) -> (p: ArxivPaper)
    ensures
        p@ == fresh_record(now as int),
{
    let p = ArxivPaper {
        id: String::new(),
        title: String::new(),
        authors: Vec::new(),
        abstract_text: String::new(),
        published: now,
        updated: now,
        pdf_url: String::new(),
        categories: Vec::new(),
    };
    proof {
        assert(p@ =~~= fresh_record(now as int));
    }
    p
}

/// Runs the feed state machine over already-tokenized input, with the
/// parse-time clock supplied by the caller; the result is exactly the
/// machine's output, in feed order.
pub fn parse_tokens(tokens: &Vec<FeedToken>, now: i64) -> (r: Vec<ArxivPaper>)
    ensures
        paper_views(r@) == spec_parse_tokens(token_views(tokens@), now as int),
{
    let ghost vt = token_views(tokens@);
    let mut in_entry: bool = false;
    let mut cur: Option<ArxivPaper> = None;
    let mut cur_tag: String = String::new();
    let mut cur_text: String = String::new();
    let mut out: Vec<ArxivPaper> = Vec::new();
    let n: usize = tokens.len();
    proof {
        let st0 = StateV {
            in_entry: false,
            cur: view_opt(None),
            cur_tag: Seq::<char>::empty(),
            cur_text: Seq::<char>::empty(),
            out: paper_views(Seq::<ArxivPaper>::empty()),
        };
        assert(paper_views(Seq::<ArxivPaper>::empty()) =~= Seq::<RecordV>::empty());
        assert(st0 =~~= init_state());
        assert(vt.skip(0) =~= vt);
    }
    let mut i: usize = 0;
    while i < n
        invariant
            0 <= i <= n,
            n == tokens@.len(),
            vt == token_views(tokens@),
            spec_run(
                StateV {
                    in_entry: in_entry,
                    cur: view_opt(cur),
                    cur_tag: cur_tag@,
                    cur_text: cur_text@,
                    out: paper_views(out@),
                },
                vt.skip(i as int),
                now as int,
            ) == spec_run(init_state(), vt, now as int),
        decreases n - i,
    {
        let ghost st_before = StateV {
            in_entry: in_entry,
            cur: view_opt(cur),
            cur_tag: cur_tag@,
            cur_text: cur_text@,
            out: paper_views(out@),
        };
        proof {
            assert(vt[i as int] == tokens@[i as int]@);
            assert(vt.skip(i as int)[0] == vt[i as int]);
            assert(vt.skip(i as int).skip(1) =~= vt.skip(i + 1));
        }
        let t = &tokens[i];
        match t {
            FeedToken::Start(name) => {
                cur_tag = name.clone();
                if str_eq(name.as_str(), "entry") {
                    in_entry = true;
                    cur = Some(fresh_paper(now));
                }
            },
            FeedToken::Text(s) => {
                if in_entry {
                    cur_text = trim(s.as_str());
                }
            },
            FeedToken::End(name) => {
                if in_entry {
                    let c0 = cur;
                    cur = match c0 {
                        Some(mut p) => {
                            if str_eq(cur_tag.as_str(), "id") {
                                p.id = cur_text.clone();
                            } else if str_eq(cur_tag.as_str(), "title") {
                                p.title = cur_text.clone();
                            } else if str_eq(cur_tag.as_str(), "summary") {
                                p.abstract_text = cur_text.clone();
                            } else if str_eq(cur_tag.as_str(), "published") {
                                match parse_rfc3339_sec(cur_text.as_str()) {
                                    Some(ts) => {
                                        p.published = ts;
                                    },
                                    None => {},
                                }
                            } else if str_eq(cur_tag.as_str(), "updated") {
                                match parse_rfc3339_sec(cur_text.as_str()) {
                                    Some(ts) => {
                                        p.updated = ts;
                                    },
                                    None => {},
                                }
                            } else if str_eq(cur_tag.as_str(), "name") {
                                p.authors.push(cur_text.clone());
                                proof {
                                    assert(p.authors.deep_view() =~= st_before.cur->Some_0.authors.push(
                                        cur_text@,
                                    ));
                                }
                            }
                            proof {
                                assert(Some(p@) =~~= Some(
                                    spec_dispatch(
                                        st_before.cur->Some_0,
                                        st_before.cur_tag,
                                        st_before.cur_text,
                                    ),
                                ));
                            }
                            Some(p)
                        },
                        None => None,
                    };
                    if str_eq(name.as_str(), "entry") {
                        in_entry = false;
                        let c1 = cur;
                        cur = None;
                        match c1 {
                            Some(mut p) => {
                                p.pdf_url = derive_pdf_url(p.id.as_str());
                                out.push(p);
                                proof {
                                    assert(paper_views(out@) =~~= paper_views(
                                        out@.drop_last().push(out@.last()),
                                    ));
                                }
                            },
                            None => {},
                        }
                    }
                }
                cur_text = String::new();
            },
            FeedToken::Other => {},
        }
        proof {
            let st_after = StateV {
                in_entry: in_entry,
                cur: view_opt(cur),
                cur_tag: cur_tag@,
                cur_text: cur_text@,
                out: paper_views(out@),
            };
            assert(st_after =~~= spec_step(st_before, vt[i as int], now as int));
        }
        i = i + 1;
    }
    proof {
        assert(vt.skip(n as int) =~= Seq::<TokenV>::empty());
    }
    out
}

/// The token stream an in-memory payload tokenizes to, or nothing when
/// the tokenizer reports an error somewhere in it.
pub uninterp spec fn toks_of(s: Seq<char>) -> Option<Seq<TokenV>>;

/// Turns a raw payload into feed tokens; a tokenizer error is a hard
/// failure for the whole call and discards every token read so far.
///
/// Relies on quick_xml's `Reader::from_str`, `Reader::read_event` and
/// `BytesText::unescape`: tokenizing an in-memory string is a function
/// of its characters alone, so the stream can be named; which tokens
/// come back is not assumed. Tag names are read as UTF-8 and text is
/// unescaped, each event mapped to its own token kind.
#[verifier::external_body]
pub(crate) fn tokenize(xml: &str) -> (r: Result<Vec<FeedToken>, ArxivError>)
    ensures
        match r {
            Ok(ts) => toks_of(xml@) == Some(token_views(ts@)),
            Err(e) => e is XmlParseFailed && toks_of(xml@) is None,
        },
{
    let mut rd = Reader::from_str(xml);
    let mut toks = Vec::new();
    loop {
        match rd.read_event() {
            Ok(Event::Start(e)) => toks.push(FeedToken::Start(String::from_utf8_lossy(e.name().as_ref()).to_string())),
            Ok(Event::End(e)) => toks.push(FeedToken::End(String::from_utf8_lossy(e.name().as_ref()).to_string())),
            Ok(Event::Text(e)) => toks.push(FeedToken::Text(e.unescape().unwrap_or_default().to_string())),
            Ok(Event::Eof) => return Ok(toks),
            Ok(_) => toks.push(FeedToken::Other),
            Err(e) => return Err(ArxivError::XmlParseFailed(e.to_string())),
        }
    }
}

/// Whether the emitted form of a record is sound: the document URL is
/// derived from the identifier, and both timestamps are the parse-time
/// clock or an instant read from the feed.
pub open spec fn emitted_ok(r: RecordV, now: int) -> bool {
    &&& r.pdf_url == spec_pdf_url(r.id)
    &&& timestamp_ok(r.published, now)
    &&& timestamp_ok(r.updated, now)
}

/// A timestamp is the parse-time clock or some successfully parsed
/// RFC 3339 instant; a malformed date never fails the parse.
pub open spec fn timestamp_ok(v: int, now: int) -> bool {
    v == now || parsed_instant(v)
}

/// The instants that some RFC 3339 string denotes.
pub open spec fn parsed_instant(v: int) -> bool {
    exists|s: Seq<char>, t: i64| rfc3339_sec_of(s) == Some(t) && v == t as int
}

spec fn cur_ok(c: Option<RecordV>, now: int) -> bool {
    match c {
        Some(r) => timestamp_ok(r.published, now) && timestamp_ok(r.updated, now),
        None => true,
    }
}

proof fn lemma_run_records(st: StateV, ts: Seq<TokenV>, now: int)
    requires
        forall|k: int| 0 <= k < st.out.len() ==> emitted_ok(#[trigger] st.out[k], now),
        cur_ok(st.cur, now),
    ensures
        forall|k: int|
            0 <= k < spec_run(st, ts, now).out.len() ==> emitted_ok(
                #[trigger] spec_run(st, ts, now).out[k],
                now,
            ),
    decreases ts.len(),
{
    if ts.len() > 0 {
        let st1 = spec_step(st, ts[0], now);
        match ts[0] {
            TokenV::Start(name) => {
                assert(cur_ok(st1.cur, now));
            },
            TokenV::Text(s) => {},
            TokenV::End(name) => {
                if st.in_entry {
                    match st.cur {
                        Some(r) => {
                            let rd = spec_dispatch(r, st.cur_tag, st.cur_text);
                            assert(timestamp_ok(rd.published, now) && timestamp_ok(
                                rd.updated,
                                now,
                            )) by {
                                if st.cur_tag == "id"@ {
                                } else if st.cur_tag == "title"@ {
                                } else if st.cur_tag == "summary"@ {
                                } else if st.cur_tag == "published"@ {
                                    match rfc3339_sec_of(st.cur_text) {
                                        Some(t) => {
                                            assert(rfc3339_sec_of(st.cur_text) == Some(t)
                                                && rd.published == t as int);
                                            assert(parsed_instant(rd.published));
                                        },
                                        None => {},
                                    }
                                } else if st.cur_tag == "updated"@ {
                                    match rfc3339_sec_of(st.cur_text) {
                                        Some(t) => {
                                            assert(rfc3339_sec_of(st.cur_text) == Some(t)
                                                && rd.updated == t as int);
                                            assert(parsed_instant(rd.updated));
                                        },
                                        None => {},
                                    }
                                }
                            }
                            if name == "entry"@ {
                                assert(emitted_ok(spec_finalize(rd), now));
                                assert(forall|k: int|
                                    0 <= k < st1.out.len() ==> emitted_ok(
                                        #[trigger] st1.out[k],
                                        now,
                                    ));
                            }
                        },
                        None => {},
                    }
                }
            },
            TokenV::Other => {},
        }
        lemma_run_records(st1, ts.skip(1), now);
    }
}

/// Every parsed record carries a document URL derived from its
/// identifier, and timestamps that are the parse-time clock or instants
/// read from the feed: a malformed date defaults, it never fails.
pub proof fn lemma_parse_records_shape(ts: Seq<TokenV>, now: int)
    ensures
        forall|k: int|
            0 <= k < spec_parse_tokens(ts, now).len() ==> emitted_ok(
                #[trigger] spec_parse_tokens(ts, now)[k],
                now,
            ),
{
    lemma_run_records(init_state(), ts, now);
}

/// How many `entry` elements open in a token sequence.
pub open spec fn entry_count(ts: Seq<TokenV>) -> nat
    decreases ts.len(),
{
    if ts.len() == 0 {
        0
    } else {
        (match ts[0] {
            TokenV::Start(name) => if name == "entry"@ {
                1nat
            } else {
                0nat
            },
            _ => 0nat,
        }) + entry_count(ts.skip(1))
    }
}

/// Whether `entry` start and end tags alternate properly, starting from
/// a context that is already inside an entry or not.
pub open spec fn entry_balanced(ts: Seq<TokenV>, inside: bool) -> bool
    decreases ts.len(),
{
    if ts.len() == 0 {
        !inside
    } else {
        match ts[0] {
            TokenV::Start(name) => if name == "entry"@ {
                !inside && entry_balanced(ts.skip(1), true)
            } else {
                entry_balanced(ts.skip(1), inside)
            },
            TokenV::End(name) => if name == "entry"@ {
                inside && entry_balanced(ts.skip(1), false)
            } else {
                entry_balanced(ts.skip(1), inside)
            },
            _ => entry_balanced(ts.skip(1), inside),
        }
    }
}

spec fn emit_count(ts: Seq<TokenV>, inside: bool) -> nat
    decreases ts.len(),
{
    if ts.len() == 0 {
        0
    } else {
        match ts[0] {
            TokenV::Start(name) => if name == "entry"@ {
                emit_count(ts.skip(1), true)
            } else {
                emit_count(ts.skip(1), inside)
            },
            TokenV::End(name) => if name == "entry"@ {
                (if inside {
                    1nat
                } else {
                    0nat
                }) + emit_count(ts.skip(1), false)
            } else {
                emit_count(ts.skip(1), inside)
            },
            _ => emit_count(ts.skip(1), inside),
        }
    }
}

proof fn lemma_run_emit(st: StateV, ts: Seq<TokenV>, now: int)
    requires
        st.in_entry == (st.cur is Some),
    ensures
        spec_run(st, ts, now).out.len() == st.out.len() + emit_count(ts, st.in_entry),
    decreases ts.len(),
{
    if ts.len() > 0 {
        let st1 = spec_step(st, ts[0], now);
        assert(st1.in_entry == (st1.cur is Some));
        lemma_run_emit(st1, ts.skip(1), now);
    }
}

proof fn lemma_balanced_emit(ts: Seq<TokenV>, inside: bool)
    requires
        entry_balanced(ts, inside),
    ensures
        emit_count(ts, inside) == entry_count(ts) + (if inside {
            1nat
        } else {
            0nat
        }),
    decreases ts.len(),
{
    if ts.len() > 0 {
        match ts[0] {
            TokenV::Start(name) => {
                if name == "entry"@ {
                    lemma_balanced_emit(ts.skip(1), true);
                } else {
                    lemma_balanced_emit(ts.skip(1), inside);
                }
            },
            TokenV::End(name) => {
                if name == "entry"@ {
                    lemma_balanced_emit(ts.skip(1), false);
                } else {
                    lemma_balanced_emit(ts.skip(1), inside);
                }
            },
            _ => {
                lemma_balanced_emit(ts.skip(1), inside);
            },
        }
    }
}

/// A well-formed response with properly alternating `entry` tags parses
/// to exactly one record per `entry` element, whatever the other tokens
/// hold.
pub proof fn lemma_parse_counts_entries(ts: Seq<TokenV>, now: int)
    requires
        entry_balanced(ts, false),
    ensures
        spec_parse_tokens(ts, now).len() == entry_count(ts),
{
    lemma_run_emit(init_state(), ts, now);
    lemma_balanced_emit(ts, false);
}

/// Parses a raw paginated payload with the parse-time clock supplied by
/// the caller. The call succeeds exactly when the payload tokenizes,
/// and then the records are exactly what the flat state machine yields
/// on that token stream, in feed order: every record's document URL is
/// derived from its identifier and its timestamps default to `now`
/// where the feed's dates are absent or malformed. A tokenizer failure
/// discards all partial results.
pub fn parse_response_at(xml: &str, now: i64) -> (r: Result<Vec<ArxivPaper>, ArxivError>)
    ensures
        match r {
            Ok(ps) => {
                &&& toks_of(xml@) is Some
                &&& paper_views(ps@) == spec_parse_tokens(toks_of(xml@)->Some_0, now as int)
                &&& forall|k: int|
                    0 <= k < ps@.len() ==> emitted_ok(#[trigger] ps@[k]@, now as int)
            },
            Err(e) => e is XmlParseFailed && toks_of(xml@) is None,
        },
{
    let toks = match tokenize(xml) {
        Ok(ts) => ts,
        Err(e) => {
            return Err(e);
        },
    };
    let papers = parse_tokens(&toks, now);
    proof {
        let ts = token_views(toks@);
        lemma_parse_records_shape(ts, now as int);
        assert(forall|k: int|
            0 <= k < papers@.len() ==> paper_views(papers@)[k] == #[trigger] papers@[k]@);
    }
    Ok(papers)
}

/// Parses a raw paginated payload, defaulting absent or malformed dates
/// to the current wall-clock time. The call succeeds exactly when the
/// payload tokenizes; the records are the state machine's output on its
/// token stream for some clock value.
pub fn parse_response(xml: &str) -> (r: Result<Vec<ArxivPaper>, ArxivError>)
    ensures
        match r {
            Ok(ps) => {
                &&& toks_of(xml@) is Some
                &&& exists|now: int|
                    paper_views(ps@) == spec_parse_tokens(toks_of(xml@)->Some_0, now)
                &&& forall|k: int|
                    0 <= k < ps@.len() ==> #[trigger] ps@[k]@.pdf_url == spec_pdf_url(ps@[k]@.id)
            },
            Err(e) => e is XmlParseFailed && toks_of(xml@) is None,
        },
{
    let now = now_sec();
    let r = parse_response_at(xml, now);
    proof {
        match r {
            Ok(ref ps) => {
                assert(forall|k: int|
                    0 <= k < ps@.len() ==> emitted_ok(#[trigger] ps@[k]@, now as int));
            },
            Err(_) => {},
        }
    }
    r
}

} // verus!
