use vstd::prelude::*;

use crate::strutil::{push_char, spec_is_ws, spec_trim, trim, window_eq};
use vstd::string::StringSliceAdditionalSpecFns;

verus! {

/// The failures of the text-extraction collaborator boundary.
#[derive(Debug)]
pub enum ParserError {
    /// The document's text could not be extracted.
    ExtractionFailed(String),
    /// A filesystem operation failed.
    IoError(String),
    /// No document sits at the given path.
    FileNotFound(String),
}

/// Simple counting and heuristic analysis over extracted text.
pub struct PdfParser;

/// Counts and heuristics over one document's extracted text.
pub struct PaperTextMetadata {
    /// The text's length in bytes.
    pub char_count: usize,
    /// The number of white-space separated words.
    pub word_count: usize,
    /// The number of lines.
    pub line_count: usize,
    /// The first early line that looks like a title.
    pub title: Option<String>,
    /// The index of the first line naming an abstract.
    pub abstract_start: Option<usize>,
}

/// The number of maximal non-white-space runs in the text after `s`,
/// given whether a run is already open.
pub open spec fn spec_word_count(s: Seq<char>, in_word: bool) -> nat
    decreases s.len(),
{
    if s.len() == 0 {
        0
    } else {
        (if !spec_is_ws(s[0]) && !in_word {
            1nat
        } else {
            0nat
        }) + spec_word_count(s.skip(1), !spec_is_ws(s[0]))
    }
}

/// A line with its terminating carriage return removed.
pub open spec fn strip_cr(l: Seq<char>) -> Seq<char> {
    if l.len() > 0 && l.last() == '\r' {
        l.drop_last()
    } else {
        l
    }
}

/// The lines of the text after `s`, with `cur` the line under
/// construction and `acc` the lines already closed.
pub open spec fn lines_fold(s: Seq<char>, cur: Seq<char>, acc: Seq<Seq<char>>) -> Seq<Seq<char>>
    decreases s.len(),
{
    if s.len() == 0 {
        if cur.len() == 0 {
            acc
        } else {
            acc.push(cur)
        }
    } else if s[0] == '\n' {
        lines_fold(s.skip(1), Seq::<char>::empty(), acc.push(strip_cr(cur)))
    } else {
        lines_fold(s.skip(1), cur.push(s[0]), acc)
    }
}

/// The lines of a text, as `str::lines` yields them.
pub open spec fn spec_lines(s: Seq<char>) -> Seq<Seq<char>> {
    lines_fold(s, Seq::<char>::empty(), Seq::<Seq<char>>::empty())
}

/// Whether `n` occurs as a contiguous run inside `h`.
pub open spec fn spec_contains(h: Seq<char>, n: Seq<char>) -> bool {
    exists|k: int| 0 <= k && k + n.len() <= h.len() && #[trigger] h.subrange(k, k + n.len() as int) == n
}

/// The lowercased form of a text.
pub uninterp spec fn lower_of(s: Seq<char>) -> Seq<char>;

/// Relies on str::to_lowercase: the lowercased text depends on the
/// characters alone.
#[verifier::external_body]
fn lowercase(s: &str) -> (r: String)
    ensures
        r@ == lower_of(s@),
{
    s.to_lowercase()
}

/// Whether a line's trimmed form is plausibly a title: more than 10 and
/// fewer than 200 bytes.
pub open spec fn spec_title_candidate(line: Seq<char>) -> bool {
    let t = spec_trim(line);
    &&& t.len() > 0
    &&& (vstd::utf8::encode_utf8(t).len() as usize) > 10
    &&& (vstd::utf8::encode_utf8(t).len() as usize) < 200
}

/// Whether a line mentions an abstract, ignoring case.
pub open spec fn spec_abstract_line(line: Seq<char>) -> bool {
    spec_contains(lower_of(line), "abstract"@)
}

/// Whether `n` occurs inside `h`, decided by scanning every window.
fn contains_str(h: &str, n: &str) -> (r: bool)
    ensures
        r == spec_contains(h@, n@),
{
    let hl: usize = h.unicode_len();
    let nl: usize = n.unicode_len();
    if nl == 0 {
        proof {
            assert(h@.subrange(0, 0 + n@.len() as int) =~= n@);
        }
        return true;
    }
    if nl > hl {
        proof {
            assert(!spec_contains(h@, n@));
        }
        return false;
    }
    let mut k: usize = 0;
    while k < hl
        invariant
            0 <= k <= hl,
            1 <= nl <= hl,
            hl == h@.len(),
            nl == n@.len(),
            forall|x: int|
                0 <= x < k && x + n@.len() <= h@.len() ==> #[trigger] h@.subrange(
                    x,
                    x + n@.len() as int,
                ) != n@,
        decreases hl - k,
    {
        if nl <= hl - k {
            if window_eq(h, k, n) {
                return true;
            }
        }
        k = k + 1;
    }
    proof {
        if spec_contains(h@, n@) {
            let x = choose|x: int|
                0 <= x && x + n@.len() <= h@.len() && #[trigger] h@.subrange(x, x + n@.len() as int)
                    == n@;
            assert(false);
        }
    }
    false
}

/// Splits a text into lines, as `str::lines` does: terminators are `\n`
/// with any immediately preceding `\r` removed, and a final segment
/// counts only when it is nonempty.
pub fn split_lines(text: &str) -> (r: Vec<String>)
    ensures
        r.deep_view() == spec_lines(text@),
{
    let n: usize = text.unicode_len();
    let mut lines: Vec<String> = Vec::new();
    let mut cur: String = String::new();
    let mut i: usize = 0;
    proof {
        assert(text@.skip(0) =~= text@);
        assert(lines.deep_view() =~= Seq::<Seq<char>>::empty());
    }
    while i < n
        invariant
            0 <= i <= n,
            n == text@.len(),
            lines_fold(text@.skip(i as int), cur@, lines.deep_view()) == spec_lines(text@),
        decreases n - i,
    {
        let ghost rem = text@.skip(i as int);
        let ghost acc0 = lines.deep_view();
        let ghost cur0 = cur@;
        proof {
            assert(rem[0] == text@[i as int]);
            assert(rem.skip(1) =~= text@.skip(i + 1));
        }
        let c = text.get_char(i);
        if c == '\n' {
            let line = finish_line(cur);
            lines.push(line);
            cur = String::new();
            proof {
                assert(lines.deep_view() =~= acc0.push(strip_cr(cur0)));
            }
        } else {
            push_char(&mut cur, c);
            proof {
                assert(cur@ == cur0.push(rem[0]));
            }
        }
        i = i + 1;
    }
    if !cur.as_str().is_empty() {
        let ghost acc0 = lines.deep_view();
        let ghost cur0 = cur@;
        lines.push(cur);
        proof {
            assert(lines.deep_view() =~= acc0.push(cur0));
            assert(text@.skip(n as int) =~= Seq::<char>::empty());
        }
    } else {
        proof {
            assert(text@.skip(n as int) =~= Seq::<char>::empty());
        }
    }
    lines
}

fn finish_line(cur: String) -> (r: String)
    ensures
        r@ == strip_cr(cur@),
{
    let l: usize = cur.as_str().unicode_len();
    if l > 0 && cur.as_str().get_char(l - 1) == '\r' {
        let r = cur.as_str().substring_char(0, l - 1).to_owned();
        proof {
            assert(r@ =~= cur@.drop_last());
        }
        r
    } else {
        cur
    }
}

impl PdfParser {
    /// A parser with no configuration.
    pub fn new() -> (r: Self) {
        PdfParser
    }

    /// Counts characters, words and lines of an extracted text, and
    /// applies the title and abstract-offset heuristics.
    pub fn extract_metadata(&self, text: &str) -> (r: PaperTextMetadata)
        ensures
            r.char_count == text.spec_bytes().len() as usize,
            r.word_count == spec_word_count(text@, false),
            r.line_count == spec_lines(text@).len(),
            title_ok(r.title, spec_lines(text@)),
            abstract_ok(r.abstract_start, spec_lines(text@)),
    {
        let lines = split_lines(text);
        let char_count: usize = text.len();
        let word_count = count_words(text);
        let line_count: usize = lines.len();
        let title = self.extract_title(&lines);
        let abstract_start = self.find_abstract_start(&lines);
        PaperTextMetadata { char_count, word_count, line_count, title, abstract_start }
    }

    fn extract_title(&self, lines: &Vec<String>) -> (r: Option<String>)
        ensures
            title_ok(r, lines.deep_view()),
    {
        let n: usize = lines.len();
        let bound: usize = if n < 20 {
            n
        } else {
            20
        };
        let mut i: usize = 0;
        while i < bound
            invariant
                0 <= i <= bound,
                bound == min20(lines.deep_view().len()),
                n == lines@.len(),
                bound <= n,
                forall|j: int| 0 <= j < i ==> !spec_title_candidate(lines.deep_view()[j]),
            decreases bound - i,
        {
            let trimmed = trim(lines[i].as_str());
            let bl: usize = trimmed.as_str().len();
            if !trimmed.as_str().is_empty() && bl > 10 && bl < 200 {
                proof {
                    assert(lines.deep_view()[i as int] == lines@[i as int]@);
                    assert(spec_title_candidate(lines.deep_view()[i as int]));
                }
                return Some(trimmed);
            }
            proof {
                assert(lines.deep_view()[i as int] == lines@[i as int]@);
            }
            i = i + 1;
        }
        None
    }

    fn find_abstract_start(&self, lines: &Vec<String>) -> (r: Option<usize>)
        ensures
            abstract_ok(r, lines.deep_view()),
    {
        let n: usize = lines.len();
        let mut i: usize = 0;
        while i < n
            invariant
                0 <= i <= n,
                n == lines@.len(),
                forall|j: int| 0 <= j < i ==> !spec_abstract_line(lines.deep_view()[j]),
            decreases n - i,
        {
            let lower = lowercase(lines[i].as_str());
            if contains_str(lower.as_str(), "abstract") {
                proof {
                    assert(lines.deep_view()[i as int] == lines@[i as int]@);
                }
                return Some(i);
            }
            proof {
                assert(lines.deep_view()[i as int] == lines@[i as int]@);
            }
            i = i + 1;
        }
        None
    }
}

impl Default for PdfParser {
    fn default() -> (r: Self) {
        PdfParser::new()
    }
}

/// The first 20 lines, or all of them when there are fewer.
pub open spec fn min20(n: nat) -> nat {
    if n < 20 {
        n
    } else {
        20
    }
}

/// The title heuristic: the trimmed form of the first early line whose
/// trimmed byte length lies strictly between 10 and 200.
pub open spec fn title_ok(r: Option<String>, lines: Seq<Seq<char>>) -> bool {
    match r {
        Some(t) => exists|i: int|
            0 <= i < min20(lines.len()) && #[trigger] spec_title_candidate(lines[i]) && t@
                == spec_trim(lines[i]) && (forall|j: int|
                0 <= j < i ==> !spec_title_candidate(lines[j])),
        None => forall|i: int| 0 <= i < min20(lines.len()) ==> !spec_title_candidate(lines[i]),
    }
}

/// The abstract heuristic: the index of the first line that mentions an
/// abstract, ignoring case.
pub open spec fn abstract_ok(r: Option<usize>, lines: Seq<Seq<char>>) -> bool {
    match r {
        Some(i) => 0 <= i < lines.len() && spec_abstract_line(lines[i as int]) && (forall|j: int|
            0 <= j < i ==> !spec_abstract_line(lines[j])),
        None => forall|i: int| 0 <= i < lines.len() ==> !spec_abstract_line(lines[i]),
    }
}

/// Counts the white-space separated words of a text.
fn count_words(text: &str) -> (r: usize)
    ensures
        r == spec_word_count(text@, false),
{
    let n: usize = text.unicode_len();
    let mut count: usize = 0;
    let mut in_word: bool = false;
    let mut i: usize = 0;
    proof {
        assert(text@.skip(0) =~= text@);
    }
    while i < n
        invariant
            0 <= i <= n,
            n == text@.len(),
            count <= i,
            count + spec_word_count(text@.skip(i as int), in_word) == spec_word_count(
                text@,
                false,
            ),
        decreases n - i,
    {
        let ghost rem = text@.skip(i as int);
        proof {
            assert(rem[0] == text@[i as int]);
            assert(rem.skip(1) =~= text@.skip(i + 1));
        }
        let c = text.get_char(i);
        let ws = crate::strutil::is_ws_char(c);
        if !ws && !in_word {
            count = count + 1;
        }
        in_word = !ws;
        i = i + 1;
    }
    proof {
        assert(text@.skip(n as int) =~= Seq::<char>::empty());
    }
    count
}

} // verus!
