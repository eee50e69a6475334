use vstd::prelude::*;

use crate::store::{metas, MetaV, PaperMetadata};
use crate::strutil::{digit_char, i64_to_string, push_char, spec_idec, spec_udec, u64_to_string, window_eq};

verus! {

// ---------------------------------------------------------------------
// The backing document's shape: a single JSON object mapping each
// canonical identifier to its metadata object, printed compactly with
// the fields in a fixed order. `"` and `\` are escaped with a
// backslash; any other character stands for itself.
// ---------------------------------------------------------------------
/// The character of a hexadecimal digit, lower case.
pub open spec fn hex_char(d: nat) -> char {
    if d == 0 {
        '0'
    } else if d == 1 {
        '1'
    } else if d == 2 {
        '2'
    } else if d == 3 {
        '3'
    } else if d == 4 {
        '4'
    } else if d == 5 {
        '5'
    } else if d == 6 {
        '6'
    } else if d == 7 {
        '7'
    } else if d == 8 {
        '8'
    } else if d == 9 {
        '9'
    } else if d == 10 {
        'a'
    } else if d == 11 {
        'b'
    } else if d == 12 {
        'c'
    } else if d == 13 {
        'd'
    } else if d == 14 {
        'e'
    } else {
        'f'
    }
}

/// Whether a character is a hexadecimal digit.
pub open spec fn is_hex(c: char) -> bool {
    (48 <= c as u32 && c as u32 <= 57) || (97 <= c as u32 && c as u32 <= 102) || (65 <= c as u32
        && c as u32 <= 70)
}

/// The value of a hexadecimal digit character.
pub open spec fn hex_val(c: char) -> nat {
    if 48 <= c as u32 && c as u32 <= 57 {
        (c as u32 - 48) as nat
    } else if 97 <= c as u32 && c as u32 <= 102 {
        (c as u32 - 87) as nat
    } else if 65 <= c as u32 && c as u32 <= 70 {
        (c as u32 - 55) as nat
    } else {
        0
    }
}

/// The escape of one character inside a string literal: quotes and
/// backslashes get a backslash, control characters become `\u00XX`,
/// everything else stands for itself.
pub open spec fn esc_char(c: char) -> Seq<char> {
    if c == '"' || c == '\\' {
        seq!['\\', c]
    } else if (c as u32) < 0x20 {
        seq!['\\', 'u', '0', '0', hex_char((c as u32 / 16) as nat), hex_char(
            (c as u32 % 16) as nat,
        )]
    } else {
        seq![c]
    }
}

/// The escaped body of a string literal.
pub open spec fn esc(v: Seq<char>) -> Seq<char>
    decreases v.len(),
{
    if v.len() == 0 {
        Seq::<char>::empty()
    } else {
        esc_char(v[0]) + esc(v.skip(1))
    }
}

/// A printed string literal.
pub open spec fn pstr(v: Seq<char>) -> Seq<char> {
    seq!['"'] + esc(v) + seq!['"']
}

/// The comma-separated items of a printed array of strings.
pub open spec fn parr_items(a: Seq<Seq<char>>) -> Seq<char>
    decreases a.len(),
{
    if a.len() == 0 {
        Seq::<char>::empty()
    } else if a.len() == 1 {
        pstr(a[0])
    } else {
        pstr(a[0]) + seq![','] + parr_items(a.skip(1))
    }
}

/// A printed array of strings.
pub open spec fn parr(a: Seq<Seq<char>>) -> Seq<char> {
    seq!['['] + parr_items(a) + seq![']']
}

/// A printed optional string: `null` when absent.
pub open spec fn popt_str(o: Option<Seq<char>>) -> Seq<char> {
    match o {
        None => "null"@,
        Some(v) => pstr(v),
    }
}

/// A printed optional integer: `null` when absent.
pub open spec fn popt_i(o: Option<int>) -> Seq<char> {
    match o {
        None => "null"@,
        Some(t) => spec_idec(t),
    }
}

/// A printed metadata object, fields in fixed order.
pub open spec fn pmeta(m: MetaV) -> Seq<char> {
    "{\"arxiv_id\":"@ + pstr(m.arxiv_id) + ",\"title\":"@ + pstr(m.title) + ",\"authors\":"@
        + parr(m.authors) + ",\"abstract_text\":"@ + pstr(m.abstract_text) + ",\"published\":"@
        + spec_idec(m.published) + ",\"updated\":"@ + spec_idec(m.updated) + ",\"categories\":"@
        + parr(m.categories) + ",\"pdf_path\":"@ + popt_str(m.pdf_path) + ",\"downloaded_at\":"@
        + popt_i(m.downloaded_at) + ",\"file_size\":"@ + popt_i(m.file_size) + seq!['}']
}

/// One printed mapping entry: the identifier as the key, then the
/// metadata object.
pub open spec fn pentry(m: MetaV) -> Seq<char> {
    pstr(m.arxiv_id) + seq![':'] + pmeta(m)
}

/// The entries of the printed document, one per indented line.
pub open spec fn pdoc_items(es: Seq<MetaV>) -> Seq<char>
    decreases es.len(),
{
    if es.len() == 0 {
        Seq::<char>::empty()
    } else if es.len() == 1 {
        pentry(es[0])
    } else {
        pentry(es[0]) + ",\n  "@ + pdoc_items(es.skip(1))
    }
}

/// The whole printed document, pretty-printed with one entry per line.
pub open spec fn pdoc(es: Seq<MetaV>) -> Seq<char> {
    if es.len() == 0 {
        seq!['{', '}']
    } else {
        "{\n  "@ + pdoc_items(es) + "\n}"@
    }
}

// ---------------------------------------------------------------------
// The printer.
// ---------------------------------------------------------------------
proof fn lemma_esc_single(c: char)
    ensures
        esc(seq![c]) == esc_char(c),
{
    let v = seq![c];
    assert(v[0] == c);
    assert(v.skip(1) =~= Seq::<char>::empty());
    assert(esc(v.skip(1)) =~= Seq::<char>::empty());
    assert(esc_char(c) + Seq::<char>::empty() =~= esc_char(c));
}

/// Splitting a string splits its escape.
pub proof fn lemma_esc_append(a: Seq<char>, b: Seq<char>)
    ensures
        esc(a + b) == esc(a) + esc(b),
    decreases a.len(),
{
    if a.len() == 0 {
        assert(a + b =~= b);
        assert(esc(a) + esc(b) =~= esc(b));
    } else {
        assert((a + b).skip(1) =~= a.skip(1) + b);
        lemma_esc_append(a.skip(1), b);
        assert((a + b)[0] == a[0]);
        assert(esc_char(a[0]) + (esc(a.skip(1)) + esc(b)) =~= (esc_char(a[0]) + esc(a.skip(1)))
            + esc(b));
    }
}

fn hex_to_char(d: u8) -> (c: char)
    requires
        d < 16,
    ensures
        c == hex_char(d as nat),
{
    if d == 0 {
        '0'
    } else if d == 1 {
        '1'
    } else if d == 2 {
        '2'
    } else if d == 3 {
        '3'
    } else if d == 4 {
        '4'
    } else if d == 5 {
        '5'
    } else if d == 6 {
        '6'
    } else if d == 7 {
        '7'
    } else if d == 8 {
        '8'
    } else if d == 9 {
        '9'
    } else if d == 10 {
        'a'
    } else if d == 11 {
        'b'
    } else if d == 12 {
        'c'
    } else if d == 13 {
        'd'
    } else if d == 14 {
        'e'
    } else {
        'f'
    }
}

fn is_hex_exec(c: char) -> (r: bool)
    ensures
        r == is_hex(c),
{
    let u = c as u32;
    (48 <= u && u <= 57) || (97 <= u && u <= 102) || (65 <= u && u <= 70)
}

fn hex_val_exec(c: char) -> (r: u8)
    requires
        is_hex(c),
    ensures
        r as nat == hex_val(c),
        r < 16,
{
    let u = c as u32;
    if 48 <= u && u <= 57 {
        (u - 48) as u8
    } else if 97 <= u && u <= 102 {
        (u - 87) as u8
    } else {
        (u - 55) as u8
    }
}

fn named_escape_exec(e: char) -> (c: char)
    requires
        e == 'n' || e == 'r' || e == 't' || e == 'b' || e == 'f',
    ensures
        c == named_escape(e),
{
    if e == 'n' {
        '\n'
    } else if e == 'r' {
        '\r'
    } else if e == 't' {
        '\t'
    } else if e == 'b' {
        8u8 as char
    } else {
        12u8 as char
    }
}

fn write_escaped(out: &mut String, v: &str)
    ensures
        final(out)@ == old(out)@ + esc(v@),
{
    let n: usize = v.unicode_len();
    let mut i: usize = 0;
    proof {
        assert(v@.take(0) =~= Seq::<char>::empty());
        assert(old(out)@ + esc(v@.take(0)) =~= old(out)@);
    }
    while i < n
        invariant
            0 <= i <= n,
            n == v@.len(),
            out@ == old(out)@ + esc(v@.take(i as int)),
        decreases n - i,
    {
        let c = v.get_char(i);
        let u = c as u32;
        if c == '"' || c == '\\' {
            push_char(out, '\\');
            push_char(out, c);
        } else if u < 0x20 {
            push_char(out, '\\');
            push_char(out, 'u');
            push_char(out, '0');
            push_char(out, '0');
            push_char(out, hex_to_char((u / 16) as u8));
            push_char(out, hex_to_char((u % 16) as u8));
        } else {
            push_char(out, c);
        }
        proof {
            lemma_esc_append(v@.take(i as int), seq![v@[i as int]]);
            assert(v@.take(i + 1) =~= v@.take(i as int) + seq![v@[i as int]]);
            lemma_esc_single(v@[i as int]);
            assert(out@ =~= old(out)@ + esc(v@.take(i + 1)));
        }
        i = i + 1;
    }
    proof {
        assert(v@.take(n as int) =~= v@);
    }
}

fn write_string(out: &mut String, v: &str)
    ensures
        final(out)@ == old(out)@ + pstr(v@),
{
    push_char(out, '"');
    write_escaped(out, v);
    push_char(out, '"');
    proof {
        assert(out@ =~= old(out)@ + pstr(v@));
    }
}

proof fn lemma_parr_items_push(a: Seq<Seq<char>>, v: Seq<char>)
    ensures
        parr_items(a.push(v)) == if a.len() == 0 {
            pstr(v)
        } else {
            parr_items(a) + seq![','] + pstr(v)
        },
    decreases a.len(),
{
    let ap = a.push(v);
    if a.len() == 0 {
        assert(ap.len() == 1);
        assert(ap[0] == v);
    } else {
        assert(ap[0] == a[0]);
        assert(ap.skip(1) =~= a.skip(1).push(v));
        lemma_parr_items_push(a.skip(1), v);
        if a.len() == 1 {
            assert(parr_items(a) == pstr(a[0]));
            assert(parr_items(ap.skip(1)) == pstr(v));
        } else {
            let h = pstr(a[0]);
            let c = seq![','];
            let t = parr_items(a.skip(1));
            let w = pstr(v);
            assert(parr_items(ap) == h + c + (t + c + w));
            lemma_concat_assoc(t, c, w);
            lemma_concat_assoc(h + c, t, c + w);
            lemma_concat_assoc(h + c + t, c, w);
        }
    }
}

fn write_arr(out: &mut String, a: &Vec<String>)
    ensures
        final(out)@ == old(out)@ + parr(a.deep_view()),
{
    push_char(out, '[');
    let n: usize = a.len();
    let mut i: usize = 0;
    proof {
        assert(a.deep_view().take(0) =~= Seq::<Seq<char>>::empty());
    }
    while i < n
        invariant
            0 <= i <= n,
            n == a@.len(),
            a.deep_view().len() == n,
            out@ == old(out)@ + seq!['['] + parr_items(a.deep_view().take(i as int)),
        decreases n - i,
    {
        if i > 0 {
            push_char(out, ',');
        }
        write_string(out, a[i].as_str());
        proof {
            let dv = a.deep_view();
            assert(dv[i as int] == a@[i as int]@);
            assert(dv.take(i + 1) =~= dv.take(i as int).push(dv[i as int]));
            lemma_parr_items_push(dv.take(i as int), dv[i as int]);
            assert(out@ =~= old(out)@ + seq!['['] + parr_items(dv.take(i + 1)));
        }
        i = i + 1;
    }
    push_char(out, ']');
    proof {
        assert(a.deep_view().take(n as int) =~= a.deep_view());
        assert(out@ =~= old(out)@ + parr(a.deep_view()));
    }
}

fn write_opt_string(out: &mut String, o: &Option<String>)
    ensures
        final(out)@ == old(out)@ + popt_str(
            match o {
                Some(v) => Some(v@),
                None => None,
            },
        ),
{
    match o {
        Some(v) => write_string(out, v.as_str()),
        None => {
            out.append("null");
        },
    }
}

fn write_opt_i64(out: &mut String, o: &Option<i64>)
    ensures
        final(out)@ == old(out)@ + popt_i(
            match o {
                Some(t) => Some((*t) as int),
                None => None,
            },
        ),
{
    match o {
        Some(t) => {
            let d = i64_to_string(*t);
            out.append(d.as_str());
        },
        None => {
            out.append("null");
        },
    }
}

fn write_opt_u64(out: &mut String, o: &Option<u64>)
    ensures
        final(out)@ == old(out)@ + popt_i(
            match o {
                Some(t) => Some((*t) as int),
                None => None,
            },
        ),
{
    match o {
        Some(t) => {
            let d = u64_to_string(*t);
            out.append(d.as_str());
            proof {
                assert(spec_udec((*t) as nat) == spec_idec((*t) as int));
            }
        },
        None => {
            out.append("null");
        },
    }
}

#[verifier::rlimit(100)]
#[verifier::spinoff_prover]
fn write_meta_tail(out: &mut String, m: &PaperMetadata)
    ensures
        final(out)@ == old(out)@ + (",\"categories\":"@ + parr(m@.categories) + ",\"pdf_path\":"@
            + popt_str(m@.pdf_path) + ",\"downloaded_at\":"@ + popt_i(m@.downloaded_at)
            + ",\"file_size\":"@ + popt_i(m@.file_size) + seq!['}']),
{
    out.append(",\"categories\":");
    write_arr(out, &m.categories);
    out.append(",\"pdf_path\":");
    write_opt_string(out, &m.pdf_path);
    out.append(",\"downloaded_at\":");
    write_opt_i64(out, &m.downloaded_at);
    out.append(",\"file_size\":");
    write_opt_u64(out, &m.file_size);
    push_char(out, '}');
    proof {
        assert(out@ =~= old(out)@ + (",\"categories\":"@ + parr(m@.categories)
            + ",\"pdf_path\":"@ + popt_str(m@.pdf_path) + ",\"downloaded_at\":"@ + popt_i(
            m@.downloaded_at,
        ) + ",\"file_size\":"@ + popt_i(m@.file_size) + seq!['}']));
    }
}

#[verifier::rlimit(100)]
#[verifier::spinoff_prover]
fn write_meta(out: &mut String, m: &PaperMetadata)
    ensures
        final(out)@ == old(out)@ + pmeta(m@),
{
    out.append("{\"arxiv_id\":");
    write_string(out, m.arxiv_id.as_str());
    out.append(",\"title\":");
    write_string(out, m.title.as_str());
    out.append(",\"authors\":");
    write_arr(out, &m.authors);
    out.append(",\"abstract_text\":");
    write_string(out, m.abstract_text.as_str());
    out.append(",\"published\":");
    let d1 = i64_to_string(m.published);
    out.append(d1.as_str());
    out.append(",\"updated\":");
    let d2 = i64_to_string(m.updated);
    out.append(d2.as_str());
    write_meta_tail(out, m);
    proof {
        assert(out@ =~= old(out)@ + pmeta(m@));
    }
}

proof fn lemma_concat_assoc(a: Seq<char>, b: Seq<char>, c: Seq<char>)
    ensures
        (a + b) + c == a + (b + c),
{
    assert((a + b) + c =~= a + (b + c));
}

proof fn lemma_pdoc_items_push(es: Seq<MetaV>, m: MetaV)
    ensures
        pdoc_items(es.push(m)) == if es.len() == 0 {
            pentry(m)
        } else {
            pdoc_items(es) + ",\n  "@ + pentry(m)
        },
    decreases es.len(),
{
    let ep = es.push(m);
    if es.len() == 0 {
        assert(ep.len() == 1);
        assert(ep[0] == m);
    } else if es.len() == 1 {
        assert(ep[0] == es[0]);
        assert(ep.skip(1) =~= seq![m]);
        assert(ep.skip(1)[0] == m);
        assert(pdoc_items(ep.skip(1)) == pentry(m));
        assert(pdoc_items(es) == pentry(es[0]));
    } else {
        assert(ep[0] == es[0]);
        assert(ep.skip(1) =~= es.skip(1).push(m));
        lemma_pdoc_items_push(es.skip(1), m);
        // reassociate without expanding the printed pieces
        let sep = ",\n  "@;
        let a = pentry(es[0]) + sep;
        let b = pdoc_items(es.skip(1));
        let pm = pentry(m);
        lemma_concat_assoc(b, sep, pm);
        lemma_concat_assoc(a, b + sep, pm);
        lemma_concat_assoc(a, b, sep);
        lemma_concat_assoc(pentry(es[0]), sep, b);
        lemma_concat_assoc(pentry(es[0]) + sep + b, sep, pm);
    }
}

/// Prints a whole entry sequence as the backing document, one entry
/// per indented line.
#[verifier::rlimit(100)]
#[verifier::spinoff_prover]
pub fn meta_vec_to_json(entries: &Vec<PaperMetadata>) -> (r: String)
    ensures
        r@ == pdoc(metas(entries@)),
{
    let n: usize = entries.len();
    if n == 0 {
        let mut out = String::new();
        push_char(&mut out, '{');
        push_char(&mut out, '}');
        proof {
            assert(metas(entries@) =~= Seq::<MetaV>::empty());
            assert(out@ =~= pdoc(metas(entries@)));
        }
        return out;
    }
    let mut out = String::from_str("{\n  ");
    let mut i: usize = 0;
    proof {
        assert(metas(entries@).take(0) =~= Seq::<MetaV>::empty());
        assert(out@ + pdoc_items(metas(entries@).take(0)) =~= out@);
    }
    while i < n
        invariant
            0 <= i <= n,
            n == entries@.len(),
            out@ == "{\n  "@ + pdoc_items(metas(entries@).take(i as int)),
        decreases n - i,
    {
        if i > 0 {
            out.append(",\n  ");
        }
        write_string(&mut out, entries[i].arxiv_id.as_str());
        push_char(&mut out, ':');
        write_meta(&mut out, &entries[i]);
        proof {
            let ms = metas(entries@);
            assert(ms[i as int] == entries@[i as int]@);
            assert(ms.take(i + 1) =~= ms.take(i as int).push(ms[i as int]));
            lemma_pdoc_items_push(ms.take(i as int), ms[i as int]);
            assert(out@ =~= "{\n  "@ + pdoc_items(ms.take(i + 1)));
        }
        i = i + 1;
    }
    out.append("\n}");
    proof {
        assert(metas(entries@).take(n as int) =~= metas(entries@));
        assert(metas(entries@).len() == n);
        assert(out@ =~= pdoc(metas(entries@)));
    }
    out
}

} // verus!

verus! {

// ---------------------------------------------------------------------
// The parser: a recursive descent over exactly the grammar the printer
// emits. A malformed document is a hard failure.
// ---------------------------------------------------------------------
/// Whether position `i` holds the character `c`.
pub open spec fn at_char(s: Seq<char>, i: int, c: char) -> bool {
    0 <= i < s.len() && s[i] == c
}

/// The parse of a string-literal body, the opening quote already
/// consumed: the unescaped content and the position after the closing
/// quote.
#[verifier::opaque]
pub open spec fn sp_strbody(s: Seq<char>, i: int) -> Option<(Seq<char>, int)>
    decreases s.len() - i,
{
    if i < 0 || i >= s.len() {
        None
    } else if s[i] == '"' {
        Some((Seq::<char>::empty(), i + 1))
    } else if s[i] == '\\' {
        if i + 1 < s.len() {
            let e = s[i + 1];
            if e == '"' || e == '\\' || e == '/' {
                match sp_strbody(s, i + 2) {
                    Some(p) => Some((seq![e] + p.0, p.1)),
                    None => None,
                }
            } else if e == 'n' || e == 'r' || e == 't' || e == 'b' || e == 'f' {
                match sp_strbody(s, i + 2) {
                    Some(p) => Some((seq![named_escape(e)] + p.0, p.1)),
                    None => None,
                }
            } else if e == 'u' {
                if i + 5 < s.len() && s[i + 2] == '0' && s[i + 3] == '0' && is_hex(s[i + 4])
                    && is_hex(s[i + 5]) {
                    match sp_strbody(s, i + 6) {
                        Some(p) => Some(
                            (seq![((hex_val(s[i + 4]) * 16 + hex_val(s[i + 5])) as u8) as char]
                                + p.0, p.1),
                        ),
                        None => None,
                    }
                } else {
                    None
                }
            } else {
                None
            }
        } else {
            None
        }
    } else {
        match sp_strbody(s, i + 1) {
            Some(p) => Some((seq![s[i]] + p.0, p.1)),
            None => None,
        }
    }
}

/// The character a named escape stands for.
pub open spec fn named_escape(e: char) -> char {
    if e == 'n' {
        '\n'
    } else if e == 'r' {
        '\r'
    } else if e == 't' {
        '\t'
    } else if e == 'b' {
        8u8 as char
    } else {
        12u8 as char
    }
}

/// The parse of a whole string literal.
pub open spec fn sp_string(s: Seq<char>, i: int) -> Option<(Seq<char>, int)> {
    if at_char(s, i, '"') {
        sp_strbody(s, i + 1)
    } else {
        None
    }
}

/// Whether a character is a decimal digit.
pub open spec fn is_digit(c: char) -> bool {
    48 <= c as u32 && c as u32 <= 57
}

/// The value of a digit character.
pub open spec fn digit_val(c: char) -> nat {
    (c as u32 - 48) as nat
}

/// Scans a maximal digit run, folding it onto `acc`.
pub open spec fn sp_digits(s: Seq<char>, i: int, acc: nat) -> (nat, int)
    decreases s.len() - i,
{
    if 0 <= i && i < s.len() && is_digit(s[i]) {
        sp_digits(s, i + 1, acc * 10 + digit_val(s[i]))
    } else {
        (acc, i)
    }
}

/// The parse of an unsigned decimal number: at least one digit.
pub open spec fn sp_uint(s: Seq<char>, i: int) -> Option<(nat, int)> {
    if 0 <= i && i < s.len() && is_digit(s[i]) {
        Some(sp_digits(s, i, 0))
    } else {
        None
    }
}

/// The mathematical value of a parsed number, zero on failure.
pub open spec fn uint_value(o: Option<(nat, int)>) -> nat {
    match o {
        Some(p) => p.0,
        None => 0,
    }
}

/// The parse of a possibly negated decimal number.
pub open spec fn sp_int(s: Seq<char>, i: int) -> Option<(int, int)> {
    if at_char(s, i, '-') {
        match sp_uint(s, i + 1) {
            Some(p) => Some((-(p.0 as int), p.1)),
            None => None,
        }
    } else {
        match sp_uint(s, i) {
            Some(p) => Some((p.0 as int, p.1)),
            None => None,
        }
    }
}

/// The parse of a number that must fit a 64-bit signed integer.
pub open spec fn sp_i64(s: Seq<char>, i: int) -> Option<(int, int)> {
    match sp_int(s, i) {
        Some(p) => if i64::MIN <= p.0 <= i64::MAX {
            Some(p)
        } else {
            None
        },
        None => None,
    }
}

/// The parse of a fixed piece of text, giving the position after it.
pub open spec fn sp_lit(s: Seq<char>, i: int, lit: Seq<char>) -> Option<int> {
    if 0 <= i && i + lit.len() <= s.len() && s.subrange(i, i + lit.len() as int) == lit {
        Some(i + lit.len() as int)
    } else {
        None
    }
}

/// The parse of the rest of a string array, one item already read.
pub open spec fn sp_arr_rest(s: Seq<char>, i: int, acc: Seq<Seq<char>>) -> Option<
    (Seq<Seq<char>>, int),
>
    decreases s.len() - i,
{
    if at_char(s, i, ']') {
        Some((acc, i + 1))
    } else if at_char(s, i, ',') {
        match sp_string(s, i + 1) {
            Some(p) => if i + 1 < p.1 && p.1 <= s.len() {
                sp_arr_rest(s, p.1, acc.push(p.0))
            } else {
                None
            },
            None => None,
        }
    } else {
        None
    }
}

/// The parse of a whole string array.
pub open spec fn sp_arr(s: Seq<char>, i: int) -> Option<(Seq<Seq<char>>, int)> {
    if at_char(s, i, '[') {
        if at_char(s, i + 1, ']') {
            Some((Seq::<Seq<char>>::empty(), i + 2))
        } else {
            match sp_string(s, i + 1) {
                Some(p) => if i + 1 < p.1 && p.1 <= s.len() {
                    sp_arr_rest(s, p.1, seq![p.0])
                } else {
                    None
                },
                None => None,
            }
        }
    } else {
        None
    }
}

/// The parse of an optional string: `null` or a literal.
pub open spec fn sp_opt_str(s: Seq<char>, i: int) -> Option<(Option<Seq<char>>, int)> {
    match sp_lit(s, i, "null"@) {
        Some(j) => Some((None, j)),
        None => match sp_string(s, i) {
            Some(p) => Some((Some(p.0), p.1)),
            None => None,
        },
    }
}

/// The parse of an optional signed number: `null` or an instant.
pub open spec fn sp_opt_i64(s: Seq<char>, i: int) -> Option<(Option<int>, int)> {
    match sp_lit(s, i, "null"@) {
        Some(j) => Some((None, j)),
        None => match sp_i64(s, i) {
            Some(p) => Some((Some(p.0), p.1)),
            None => None,
        },
    }
}

/// The parse of an optional size: `null` or an unsigned 64-bit number.
pub open spec fn sp_opt_u64(s: Seq<char>, i: int) -> Option<(Option<int>, int)> {
    match sp_lit(s, i, "null"@) {
        Some(j) => Some((None, j)),
        None => match sp_uint(s, i) {
            Some(p) => if p.0 <= u64::MAX {
                Some((Some(p.0 as int), p.1))
            } else {
                None
            },
            None => None,
        },
    }
}

/// The parse of one metadata object, fields in the fixed order.
pub open spec fn sp_meta(s: Seq<char>, i: int) -> Option<(MetaV, int)> {
    match sp_lit(s, i, "{\"arxiv_id\":"@) {
        None => None,
        Some(j1) => match sp_string(s, j1) {
            None => None,
            Some(p_id) => match sp_lit(s, p_id.1, ",\"title\":"@) {
                None => None,
                Some(j2) => match sp_string(s, j2) {
                    None => None,
                    Some(p_ti) => match sp_lit(s, p_ti.1, ",\"authors\":"@) {
                        None => None,
                        Some(j3) => match sp_arr(s, j3) {
                            None => None,
                            Some(p_au) => match sp_lit(s, p_au.1, ",\"abstract_text\":"@) {
                                None => None,
                                Some(j4) => match sp_string(s, j4) {
                                    None => None,
                                    Some(p_ab) => match sp_lit(s, p_ab.1, ",\"published\":"@) {
                                        None => None,
                                        Some(j5) => match sp_i64(s, j5) {
                                            None => None,
                                            Some(p_pu) => match sp_lit(
                                                s,
                                                p_pu.1,
                                                ",\"updated\":"@,
                                            ) {
                                                None => None,
                                                Some(j6) => match sp_i64(s, j6) {
                                                    None => None,
                                                    Some(p_up) => sp_meta_tail(
                                                        s,
                                                        p_up.1,
                                                        p_id.0,
                                                        p_ti.0,
                                                        p_au.0,
                                                        p_ab.0,
                                                        p_pu.0,
                                                        p_up.0,
                                                    ),
                                                },
                                            },
                                        },
                                    },
                                },
                            },
                        },
                    },
                },
            },
        },
    }
}

/// The tail of a metadata object: categories and download provenance.
pub open spec fn sp_meta_tail(
    s: Seq<char>,
    i: int,
    id: Seq<char>,
    title: Seq<char>,
    authors: Seq<Seq<char>>,
    abstract_text: Seq<char>,
    published: int,
    updated: int,
) -> Option<(MetaV, int)> {
    match sp_lit(s, i, ",\"categories\":"@) {
        None => None,
        Some(j7) => match sp_arr(s, j7) {
            None => None,
            Some(p_ca) => match sp_lit(s, p_ca.1, ",\"pdf_path\":"@) {
                None => None,
                Some(j8) => match sp_opt_str(s, j8) {
                    None => None,
                    Some(p_pp) => match sp_lit(s, p_pp.1, ",\"downloaded_at\":"@) {
                        None => None,
                        Some(j9) => match sp_opt_i64(s, j9) {
                            None => None,
                            Some(p_da) => match sp_lit(s, p_da.1, ",\"file_size\":"@) {
                                None => None,
                                Some(j10) => match sp_opt_u64(s, j10) {
                                    None => None,
                                    Some(p_fs) => if at_char(s, p_fs.1, '}') {
                                        Some(
                                            (
                                                MetaV {
                                                    arxiv_id: id,
                                                    title: title,
                                                    authors: authors,
                                                    abstract_text: abstract_text,
                                                    published: published,
                                                    updated: updated,
                                                    categories: p_ca.0,
                                                    pdf_path: p_pp.0,
                                                    downloaded_at: p_da.0,
                                                    file_size: p_fs.0,
                                                },
                                                p_fs.1 + 1,
                                            ),
                                        )
                                    } else {
                                        None
                                    },
                                },
                            },
                        },
                    },
                },
            },
        },
    }
}

/// The parse of one mapping entry; the key must repeat the object's own
/// identifier.
pub open spec fn sp_entry(s: Seq<char>, i: int) -> Option<(MetaV, int)> {
    match sp_string(s, i) {
        Some(k) => if at_char(s, k.1, ':') {
            match sp_meta(s, k.1 + 1) {
                Some(p) => if p.0.arxiv_id == k.0 {
                    Some(p)
                } else {
                    None
                },
                None => None,
            }
        } else {
            None
        },
        None => None,
    }
}

/// The parse of the remaining entries, at least one already read; the
/// document must end right after its closing line.
pub open spec fn sp_doc_rest(s: Seq<char>, i: int, acc: Seq<MetaV>) -> Option<Seq<MetaV>>
    decreases s.len() - i,
{
    if at_char(s, i, '\n') && at_char(s, i + 1, '}') && i + 2 == s.len() {
        Some(acc)
    } else if at_char(s, i, ',') && at_char(s, i + 1, '\n') && at_char(s, i + 2, ' ') && at_char(
        s,
        i + 3,
        ' ',
    ) {
        match sp_entry(s, i + 4) {
            Some(p) => if i + 4 < p.1 && p.1 <= s.len() {
                sp_doc_rest(s, p.1, acc.push(p.0))
            } else {
                None
            },
            None => None,
        }
    } else {
        None
    }
}

/// The parse of a whole backing document.
pub open spec fn sp_doc(s: Seq<char>) -> Option<Seq<MetaV>> {
    if s.len() == 2 && at_char(s, 0, '{') && at_char(s, 1, '}') {
        Some(Seq::<MetaV>::empty())
    } else if at_char(s, 0, '{') && at_char(s, 1, '\n') && at_char(s, 2, ' ') && at_char(
        s,
        3,
        ' ',
    ) {
        match sp_entry(s, 4) {
            Some(p) => if 4 < p.1 && p.1 <= s.len() {
                sp_doc_rest(s, p.1, seq![p.0])
            } else {
                None
            },
            None => None,
        }
    } else {
        None
    }
}

/// What loading a document yields: its entries, provided they are
/// well-formed and no identifier repeats; anything else is malformed.
pub open spec fn spec_from_json(s: Seq<char>) -> Option<Seq<MetaV>> {
    match sp_doc(s) {
        Some(es) => if crate::store::unique_ids(es) && (forall|i: int|
            0 <= i < es.len() ==> crate::store::wf_meta(#[trigger] es[i])) {
            Some(es)
        } else {
            None
        },
        None => None,
    }
}

} // verus!

verus! {

/// A backing document that does not parse.
#[derive(Debug)]
pub enum JsonError {
    /// The text is not a document this store writes.
    Malformed,
}

fn is_digit_exec(c: char) -> (r: bool)
    ensures
        r == is_digit(c),
{
    let u = c as u32;
    48 <= u && u <= 57
}

fn digit_val_exec(c: char) -> (r: u64)
    requires
        is_digit(c),
    ensures
        r as nat == digit_val(c),
        r < 10,
{
    let u = c as u32;
    (u - 48) as u64
}

fn parse_strbody(s: &str, n: usize, i0: usize) -> (r: Option<(String, usize)>)
    requires
        n == s@.len(),
        i0 <= n,
    ensures
        match r {
            Some(p) => sp_strbody(s@, i0 as int) == Some((p.0@, p.1 as int)) && i0 < p.1 <= n,
            None => sp_strbody(s@, i0 as int) is None,
        },
{
    let mut out = String::new();
    let mut i: usize = i0;
    loop
        invariant
            i0 <= i <= n,
            n == s@.len(),
            ({
                let inner = sp_strbody(s@, i as int);
                let outer = sp_strbody(s@, i0 as int);
                match inner {
                    Some(q) => outer == Some((out@ + q.0, q.1)),
                    None => outer is None,
                }
            }),
        decreases n - i,
    {
        proof {
            reveal(sp_strbody);
        }
        if i == n {
            return None;
        }
        let c = s.get_char(i);
        if c == '"' {
            proof {
                assert(out@ + Seq::<char>::empty() =~= out@);
            }
            return Some((out, i + 1));
        } else if c == '\\' {
            if i + 1 < n {
                let ghost out0 = out@;
                let c2 = s.get_char(i + 1);
                if c2 == '"' || c2 == '\\' || c2 == '/' {
                    push_char(&mut out, c2);
                    proof {
                        match sp_strbody(s@, i + 2) {
                            Some(q) => {
                                assert(out0 + (seq![s@[i + 1]] + q.0) =~= out0.push(s@[i + 1])
                                    + q.0);
                            },
                            None => {},
                        }
                    }
                    i = i + 2;
                } else if c2 == 'n' || c2 == 'r' || c2 == 't' || c2 == 'b' || c2 == 'f' {
                    let d = named_escape_exec(c2);
                    push_char(&mut out, d);
                    proof {
                        match sp_strbody(s@, i + 2) {
                            Some(q) => {
                                assert(out0 + (seq![named_escape(s@[i + 1])] + q.0) =~= out0.push(
                                    d,
                                ) + q.0);
                            },
                            None => {},
                        }
                    }
                    i = i + 2;
                } else if c2 == 'u' {
                    if n - i > 5 {
                        let z1 = s.get_char(i + 2);
                        let z2 = s.get_char(i + 3);
                        let h1 = s.get_char(i + 4);
                        let h2 = s.get_char(i + 5);
                        if z1 == '0' && z2 == '0' && is_hex_exec(h1) && is_hex_exec(h2) {
                            let v: u8 = hex_val_exec(h1) * 16 + hex_val_exec(h2);
                            let d = v as char;
                            push_char(&mut out, d);
                            proof {
                                assert(d == ((hex_val(s@[i + 4]) * 16 + hex_val(
                                    s@[i + 5],
                                )) as u8) as char);
                                match sp_strbody(s@, i + 6) {
                                    Some(q) => {
                                        assert(out0 + (seq![d] + q.0) =~= out0.push(d) + q.0);
                                    },
                                    None => {},
                                }
                            }
                            i = i + 6;
                        } else {
                            return None;
                        }
                    } else {
                        return None;
                    }
                } else {
                    return None;
                }
            } else {
                return None;
            }
        } else {
            let ghost out0 = out@;
            push_char(&mut out, c);
            proof {
                match sp_strbody(s@, i + 1) {
                    Some(q) => {
                        assert(out0 + (seq![s@[i as int]] + q.0) =~= out0.push(s@[i as int]) + q.0);
                    },
                    None => {},
                }
            }
            i = i + 1;
        }
    }
}

fn parse_string(s: &str, n: usize, i0: usize) -> (r: Option<(String, usize)>)
    requires
        n == s@.len(),
        i0 <= n,
    ensures
        match r {
            Some(p) => sp_string(s@, i0 as int) == Some((p.0@, p.1 as int)) && i0 < p.1 <= n,
            None => sp_string(s@, i0 as int) is None,
        },
{
    if i0 < n && s.get_char(i0) == '"' {
        parse_strbody(s, n, i0 + 1)
    } else {
        None
    }
}

fn parse_u64(s: &str, n: usize, i0: usize) -> (r: Option<(u64, usize)>)
    requires
        n == s@.len(),
        i0 <= n,
    ensures
        match r {
            Some(p) => sp_uint(s@, i0 as int) == Some((p.0 as nat, p.1 as int)) && i0 < p.1 <= n,
            None => sp_uint(s@, i0 as int) is None || uint_value(sp_uint(s@, i0 as int))
                > u64::MAX,
        },
{
    if i0 == n {
        return None;
    }
    if !is_digit_exec(s.get_char(i0)) {
        return None;
    }
    let mut acc: u64 = 0;
    let ghost mut gacc: nat = 0nat;
    let mut overflow: bool = false;
    let mut i: usize = i0;
    while i < n && is_digit_exec(s.get_char(i))
        invariant
            i0 <= i <= n,
            n == s@.len(),
            i0 < s@.len() && is_digit(s@[i0 as int]),
            sp_digits(s@, i0 as int, 0) == sp_digits(s@, i as int, gacc),
            !overflow ==> gacc == acc as nat,
            overflow ==> gacc > u64::MAX,
        decreases n - i,
    {
        let c = s.get_char(i);
        let d: u64 = digit_val_exec(c);
        if !overflow {
            let wide: u128 = (acc as u128) * 10 + (d as u128);
            if wide <= u64::MAX as u128 {
                acc = wide as u64;
            } else {
                overflow = true;
            }
        }
        proof {
            gacc = gacc * 10 + digit_val(s@[i as int]);
        }
        i = i + 1;
    }
    proof {
        assert(sp_digits(s@, i as int, gacc) == (gacc, i as int));
    }
    if overflow {
        return None;
    }
    Some((acc, i))
}

fn parse_i64(s: &str, n: usize, i0: usize) -> (r: Option<(i64, usize)>)
    requires
        n == s@.len(),
        i0 <= n,
    ensures
        match r {
            Some(p) => sp_i64(s@, i0 as int) == Some((p.0 as int, p.1 as int)) && i0 < p.1 <= n,
            None => sp_i64(s@, i0 as int) is None,
        },
{
    if i0 < n && s.get_char(i0) == '-' {
        match parse_u64(s, n, i0 + 1) {
            Some(p) => {
                if p.0 <= 9223372036854775807u64 {
                    Some((-(p.0 as i64), p.1))
                } else if p.0 == 9223372036854775808u64 {
                    Some((i64::MIN, p.1))
                } else {
                    None
                }
            },
            None => None,
        }
    } else {
        match parse_u64(s, n, i0) {
            Some(p) => {
                if p.0 <= 9223372036854775807u64 {
                    Some((p.0 as i64, p.1))
                } else {
                    None
                }
            },
            None => None,
        }
    }
}

fn parse_lit(s: &str, n: usize, i0: usize, lit: &str) -> (r: Option<usize>)
    requires
        n == s@.len(),
        i0 <= n,
    ensures
        match r {
            Some(j) => sp_lit(s@, i0 as int, lit@) == Some(j as int) && i0 <= j <= n,
            None => sp_lit(s@, i0 as int, lit@) is None,
        },
{
    let ll: usize = lit.unicode_len();
    if ll <= n - i0 {
        if window_eq(s, i0, lit) {
            Some(i0 + ll)
        } else {
            None
        }
    } else {
        None
    }
}

fn parse_arr(s: &str, n: usize, i0: usize) -> (r: Option<(Vec<String>, usize)>)
    requires
        n == s@.len(),
        i0 <= n,
    ensures
        match r {
            Some(p) => sp_arr(s@, i0 as int) == Some((p.0.deep_view(), p.1 as int)) && i0 < p.1
                <= n,
            None => sp_arr(s@, i0 as int) is None,
        },
{
    if !(i0 < n && s.get_char(i0) == '[') {
        return None;
    }
    if i0 + 1 < n && s.get_char(i0 + 1) == ']' {
        let empty_items: Vec<String> = Vec::new();
        proof {
            assert(empty_items.deep_view() =~= Seq::<Seq<char>>::empty());
        }
        return Some((empty_items, i0 + 2));
    }
    let first = match parse_string(s, n, i0 + 1) {
        Some(p) => p,
        None => {
            return None;
        },
    };
    let mut acc: Vec<String> = Vec::new();
    let ghost first_v = first.0@;
    acc.push(first.0);
    let mut i: usize = first.1;
    proof {
        assert(acc.deep_view() =~= seq![first_v]);
    }
    loop
        invariant
            i0 < i <= n,
            n == s@.len(),
            ({
                let outer = sp_arr(s@, i0 as int);
                match sp_arr_rest(s@, i as int, acc.deep_view()) {
                    Some(q) => outer == Some(q),
                    None => outer is None,
                }
            }),
        decreases n - i,
    {
        if i < n && s.get_char(i) == ']' {
            return Some((acc, i + 1));
        }
        if i < n && s.get_char(i) == ',' {
            match parse_string(s, n, i + 1) {
                Some(p) => {
                    let ghost acc0 = acc.deep_view();
                    let ghost pv = p.0@;
                    acc.push(p.0);
                    proof {
                        assert(acc.deep_view() =~= acc0.push(pv));
                    }
                    i = p.1;
                },
                None => {
                    return None;
                },
            }
        } else {
            return None;
        }
    }
}

fn parse_opt_string(s: &str, n: usize, i0: usize) -> (r: Option<(Option<String>, usize)>)
    requires
        n == s@.len(),
        i0 <= n,
    ensures
        match r {
            Some(p) => sp_opt_str(s@, i0 as int) == Some(
                (
                    match p.0 {
                        Some(v) => Some(v@),
                        None => None,
                    },
                    p.1 as int,
                ),
            ) && i0 < p.1 <= n,
            None => sp_opt_str(s@, i0 as int) is None,
        },
{
    match parse_lit(s, n, i0, "null") {
        Some(j) => {
            proof {
                reveal_strlit("null");
            }
            Some((None, j))
        },
        None => match parse_string(s, n, i0) {
            Some(p) => Some((Some(p.0), p.1)),
            None => None,
        },
    }
}

fn parse_opt_i64(s: &str, n: usize, i0: usize) -> (r: Option<(Option<i64>, usize)>)
    requires
        n == s@.len(),
        i0 <= n,
    ensures
        match r {
            Some(p) => sp_opt_i64(s@, i0 as int) == Some(
                (
                    match p.0 {
                        Some(t) => Some(t as int),
                        None => None,
                    },
                    p.1 as int,
                ),
            ) && i0 < p.1 <= n,
            None => sp_opt_i64(s@, i0 as int) is None,
        },
{
    match parse_lit(s, n, i0, "null") {
        Some(j) => {
            proof {
                reveal_strlit("null");
            }
            Some((None, j))
        },
        None => match parse_i64(s, n, i0) {
            Some(p) => Some((Some(p.0), p.1)),
            None => None,
        },
    }
}

fn parse_opt_u64(s: &str, n: usize, i0: usize) -> (r: Option<(Option<u64>, usize)>)
    requires
        n == s@.len(),
        i0 <= n,
    ensures
        match r {
            Some(p) => sp_opt_u64(s@, i0 as int) == Some(
                (
                    match p.0 {
                        Some(t) => Some(t as int),
                        None => None,
                    },
                    p.1 as int,
                ),
            ) && i0 < p.1 <= n,
            None => sp_opt_u64(s@, i0 as int) is None,
        },
{
    match parse_lit(s, n, i0, "null") {
        Some(j) => {
            proof {
                reveal_strlit("null");
            }
            Some((None, j))
        },
        None => match parse_u64(s, n, i0) {
            Some(p) => Some((Some(p.0), p.1)),
            None => None,
        },
    }
}

} // verus!

verus! {

#[verifier::rlimit(100)]
#[verifier::spinoff_prover]
fn parse_meta(s: &str, n: usize, i0: usize) -> (r: Option<(PaperMetadata, usize)>)
    requires
        n == s@.len(),
        i0 <= n,
    ensures
        match r {
            Some(p) => sp_meta(s@, i0 as int) == Some((p.0@, p.1 as int)) && i0 < p.1 <= n,
            None => sp_meta(s@, i0 as int) is None,
        },
{
    let j1 = match parse_lit(s, n, i0, "{\"arxiv_id\":") {
        Some(j) => j,
        None => {
            return None;
        },
    };
    let p_id = match parse_string(s, n, j1) {
        Some(p) => p,
        None => {
            return None;
        },
    };
    let j2 = match parse_lit(s, n, p_id.1, ",\"title\":") {
        Some(j) => j,
        None => {
            return None;
        },
    };
    let p_ti = match parse_string(s, n, j2) {
        Some(p) => p,
        None => {
            return None;
        },
    };
    let j3 = match parse_lit(s, n, p_ti.1, ",\"authors\":") {
        Some(j) => j,
        None => {
            return None;
        },
    };
    let p_au = match parse_arr(s, n, j3) {
        Some(p) => p,
        None => {
            return None;
        },
    };
    let j4 = match parse_lit(s, n, p_au.1, ",\"abstract_text\":") {
        Some(j) => j,
        None => {
            return None;
        },
    };
    let p_ab = match parse_string(s, n, j4) {
        Some(p) => p,
        None => {
            return None;
        },
    };
    let j5 = match parse_lit(s, n, p_ab.1, ",\"published\":") {
        Some(j) => j,
        None => {
            return None;
        },
    };
    let p_pu = match parse_i64(s, n, j5) {
        Some(p) => p,
        None => {
            return None;
        },
    };
    let j6 = match parse_lit(s, n, p_pu.1, ",\"updated\":") {
        Some(j) => j,
        None => {
            return None;
        },
    };
    let p_up = match parse_i64(s, n, j6) {
        Some(p) => p,
        None => {
            return None;
        },
    };
    let j7 = match parse_lit(s, n, p_up.1, ",\"categories\":") {
        Some(j) => j,
        None => {
            return None;
        },
    };
    let p_ca = match parse_arr(s, n, j7) {
        Some(p) => p,
        None => {
            return None;
        },
    };
    let j8 = match parse_lit(s, n, p_ca.1, ",\"pdf_path\":") {
        Some(j) => j,
        None => {
            return None;
        },
    };
    let p_pp = match parse_opt_string(s, n, j8) {
        Some(p) => p,
        None => {
            return None;
        },
    };
    let j9 = match parse_lit(s, n, p_pp.1, ",\"downloaded_at\":") {
        Some(j) => j,
        None => {
            return None;
        },
    };
    let p_da = match parse_opt_i64(s, n, j9) {
        Some(p) => p,
        None => {
            return None;
        },
    };
    let j10 = match parse_lit(s, n, p_da.1, ",\"file_size\":") {
        Some(j) => j,
        None => {
            return None;
        },
    };
    let p_fs = match parse_opt_u64(s, n, j10) {
        Some(p) => p,
        None => {
            return None;
        },
    };
    if !(p_fs.1 < n && s.get_char(p_fs.1) == '}') {
        return None;
    }
    let end: usize = p_fs.1 + 1;
    let m = PaperMetadata {
        arxiv_id: p_id.0,
        title: p_ti.0,
        authors: p_au.0,
        abstract_text: p_ab.0,
        published: p_pu.0,
        updated: p_up.0,
        categories: p_ca.0,
        pdf_path: p_pp.0,
        downloaded_at: p_da.0,
        file_size: p_fs.0,
    };
    proof {
        let spec_r = sp_meta(s@, i0 as int);
        assert(spec_r is Some);
        assert(m@ =~~= spec_r->Some_0.0);
    }
    Some((m, end))
}

fn parse_entry(s: &str, n: usize, i0: usize) -> (r: Option<(PaperMetadata, usize)>)
    requires
        n == s@.len(),
        i0 <= n,
    ensures
        match r {
            Some(p) => sp_entry(s@, i0 as int) == Some((p.0@, p.1 as int)) && i0 < p.1 <= n,
            None => sp_entry(s@, i0 as int) is None,
        },
{
    let k = match parse_string(s, n, i0) {
        Some(p) => p,
        None => {
            return None;
        },
    };
    if !(k.1 < n && s.get_char(k.1) == ':') {
        return None;
    }
    let p = match parse_meta(s, n, k.1 + 1) {
        Some(p) => p,
        None => {
            return None;
        },
    };
    if crate::strutil::str_eq(p.0.arxiv_id.as_str(), k.0.as_str()) {
        Some(p)
    } else {
        None
    }
}

fn check_meta_wf(m: &PaperMetadata) -> (r: bool)
    ensures
        r == crate::store::wf_meta(m@),
{
    let prov_ok = (m.pdf_path.is_some() == m.downloaded_at.is_some()) && (m.pdf_path.is_some()
        == m.file_size.is_some());
    let nid = crate::ids::normalize_id(m.arxiv_id.as_str());
    let id_ok = crate::strutil::str_eq(m.arxiv_id.as_str(), nid.as_str());
    prov_ok && id_ok
}

/// Parses a whole backing document into well-formed entries; anything
/// the printer would not emit, a repeated identifier, an identifier
/// that is not canonical, or partial download provenance, is malformed.
pub fn meta_vec_from_json(s: &str) -> (r: Result<Vec<PaperMetadata>, JsonError>)
    ensures
        match r {
            Ok(v) => {
                &&& spec_from_json(s@) == Some(metas(v@))
                &&& crate::store::unique_ids(metas(v@))
                &&& forall|i: int|
                    0 <= i < metas(v@).len() ==> crate::store::wf_meta(#[trigger] metas(v@)[i])
            },
            Err(_) => spec_from_json(s@) is None,
        },
{
    let n: usize = s.unicode_len();
    let mut acc: Vec<PaperMetadata> = Vec::new();
    if n == 2 && s.get_char(0) == '{' && s.get_char(1) == '}' {
        proof {
            assert(metas(acc@) =~= Seq::<MetaV>::empty());
        }
    } else {
        if !(n > 3 && s.get_char(0) == '{' && s.get_char(1) == '\n' && s.get_char(2) == ' '
            && s.get_char(3) == ' ') {
            return Err(JsonError::Malformed);
        }
        let first = match parse_entry(s, n, 4) {
            Some(p) => p,
            None => {
                return Err(JsonError::Malformed);
            },
        };
        let ghost first_v = first.0@;
        acc.push(first.0);
        let mut i: usize = first.1;
        proof {
            assert(metas(acc@) =~= seq![first_v]);
        }
        loop
            invariant
                0 < i <= n,
                n == s@.len(),
                ({
                    let outer = sp_doc(s@);
                    match sp_doc_rest(s@, i as int, metas(acc@)) {
                        Some(q) => outer == Some(q),
                        None => outer is None,
                    }
                }),
            ensures
                sp_doc(s@) == Some(metas(acc@)),
            decreases n - i,
        {
            if i < n && s.get_char(i) == '\n' {
                if n - i > 1 && s.get_char(i + 1) == '}' && i + 2 == n {
                    break ;
                } else {
                    return Err(JsonError::Malformed);
                }
            }
            if n - i > 3 && s.get_char(i) == ',' && s.get_char(i + 1) == '\n' && s.get_char(i + 2)
                == ' ' && s.get_char(i + 3) == ' ' {
                match parse_entry(s, n, i + 4) {
                    Some(p) => {
                        let ghost acc0 = metas(acc@);
                        let ghost pv = p.0@;
                        acc.push(p.0);
                        proof {
                            assert(metas(acc@) =~= acc0.push(pv));
                        }
                        i = p.1;
                    },
                    None => {
                        return Err(JsonError::Malformed);
                    },
                }
            } else {
                return Err(JsonError::Malformed);
            }
        }
    }
    // the document parsed; now hold every entry to the store invariant
    let ghost es = metas(acc@);
    proof {
        assert(sp_doc(s@) == Some(es));
    }
    let cnt: usize = acc.len();
    let mut i: usize = 0;
    while i < cnt
        invariant
            0 <= i <= cnt,
            cnt == acc@.len(),
            es == metas(acc@),
            sp_doc(s@) == Some(es),
            forall|k: int| 0 <= k < i ==> crate::store::wf_meta(#[trigger] es[k]),
        decreases cnt - i,
    {
        proof {
            assert(es[i as int] == acc@[i as int]@);
        }
        if !check_meta_wf(&acc[i]) {
            proof {
                assert(!crate::store::wf_meta(es[i as int]));
                assert(!(forall|k: int|
                    0 <= k < es.len() ==> crate::store::wf_meta(#[trigger] es[k])));
            }
            return Err(JsonError::Malformed);
        }
        i = i + 1;
    }
    let mut a: usize = 0;
    while a < cnt
        invariant
            0 <= a <= cnt,
            cnt == acc@.len(),
            es == metas(acc@),
            sp_doc(s@) == Some(es),
            forall|x: int, y: int|
                #![trigger es[x], es[y]]
                0 <= x < y < a ==> es[x].arxiv_id != es[y].arxiv_id,
        decreases cnt - a,
    {
        let mut b: usize = 0;
        while b < a
            invariant
                0 <= b <= a < cnt,
                cnt == acc@.len(),
                es == metas(acc@),
                sp_doc(s@) == Some(es),
                forall|x: int| 0 <= x < b ==> (#[trigger] es[x]).arxiv_id != es[a as int].arxiv_id,
            decreases a - b,
        {
            if crate::strutil::str_eq(acc[b].arxiv_id.as_str(), acc[a].arxiv_id.as_str()) {
                proof {
                    assert(es[b as int].arxiv_id == es[a as int].arxiv_id);
                    assert(!crate::store::unique_ids(es));
                }
                return Err(JsonError::Malformed);
            }
            b = b + 1;
        }
        a = a + 1;
    }
    proof {
        assert(crate::store::unique_ids(es));
    }
    Ok(acc)
}

} // verus!

verus! {

// ---------------------------------------------------------------------
// Round trip: the parser, run on anything the printer emits, yields
// exactly the printed entries.
// ---------------------------------------------------------------------
proof fn lemma_parse_esc(pre: Seq<char>, v: Seq<char>, rest: Seq<char>)
    ensures
        ({
            let s = pre + esc(v) + seq!['"'] + rest;
            sp_strbody(s, pre.len() as int) == Some((v, (pre.len() + esc(v).len() + 1) as int))
        }),
    decreases v.len(),
{
    reveal(sp_strbody);
    let s = pre + esc(v) + seq!['"'] + rest;
    let i = pre.len() as int;
    if v.len() == 0 {
        assert(esc(v) =~= Seq::<char>::empty());
        assert(s[i] == '"');
        assert(Seq::<char>::empty() =~= v);
        assert(sp_strbody(s, i) == Some((v, i + 1)));
    } else {
        let c = v[0];
        let v1 = v.skip(1);
        assert(esc(v) == esc_char(c) + esc(v1));
        assert(seq![c] + v1 =~= v);
        if c == '"' || c == '\\' {
            let pre2 = pre + seq!['\\', c];
            lemma_parse_esc(pre2, v1, rest);
            assert(pre2 + esc(v1) + seq!['"'] + rest =~= s);
            assert(s[i] == '\\');
            assert(s[i + 1] == c);
            assert(i + 1 < s.len());
            assert(esc(v).len() == 2 + esc(v1).len());
            assert(sp_strbody(s, i + 2) == Some((v1, (pre2.len() + esc(v1).len() + 1) as int)));
            assert(seq![s[i + 1]] + v1 =~= v);
        } else if (c as u32) < 0x20 {
            let u = c as u32;
            let h1 = hex_char((u / 16) as nat);
            let h2 = hex_char((u % 16) as nat);
            let pre2 = pre + seq!['\\', 'u', '0', '0', h1, h2];
            lemma_parse_esc(pre2, v1, rest);
            assert(pre2 + esc(v1) + seq!['"'] + rest =~= s);
            assert(s[i] == '\\');
            assert(s[i + 1] == 'u');
            assert(s[i + 2] == '0');
            assert(s[i + 3] == '0');
            assert(s[i + 4] == h1);
            assert(s[i + 5] == h2);
            assert(i + 5 < s.len());
            lemma_hex_char((u / 16) as nat);
            lemma_hex_char((u % 16) as nat);
            vstd::arithmetic::div_mod::lemma_fundamental_div_mod(u as int, 16);
            assert(hex_val(h1) * 16 + hex_val(h2) == u);
            vstd::utf8::char_u32_cast(c, u);
            assert((((hex_val(s[i + 4]) * 16 + hex_val(s[i + 5])) as u8) as char) == c);
            assert(esc(v).len() == 6 + esc(v1).len());
            assert(sp_strbody(s, i + 6) == Some((v1, (pre2.len() + esc(v1).len() + 1) as int)));
            assert(seq![c] + v1 =~= v);
        } else {
            let pre2 = pre + seq![c];
            lemma_parse_esc(pre2, v1, rest);
            assert(pre2 + esc(v1) + seq!['"'] + rest =~= s);
            assert(s[i] == c);
            assert(esc(v).len() == 1 + esc(v1).len());
            assert(sp_strbody(s, i + 1) == Some((v1, (pre2.len() + esc(v1).len() + 1) as int)));
            assert(seq![s[i]] + v1 =~= v);
        }
    }
}

proof fn lemma_hex_char(d: nat)
    requires
        d < 16,
    ensures
        is_hex(hex_char(d)),
        hex_val(hex_char(d)) == d,
{
}

proof fn lemma_parse_string_at(pre: Seq<char>, v: Seq<char>, rest: Seq<char>)
    ensures
        ({
            let s = pre + pstr(v) + rest;
            sp_string(s, pre.len() as int) == Some((v, (pre.len() + pstr(v).len()) as int))
        }),
{
    let s = pre + pstr(v) + rest;
    let pre2 = pre + seq!['"'];
    lemma_parse_esc(pre2, v, rest);
    assert(pre2 + esc(v) + seq!['"'] + rest =~= s);
    assert(s[pre.len() as int] == '"');
    assert(pstr(v).len() == esc(v).len() + 2);
}

proof fn lemma_parse_lit_at(pre: Seq<char>, lit: Seq<char>, rest: Seq<char>)
    ensures
        ({
            let s = pre + lit + rest;
            sp_lit(s, pre.len() as int, lit) == Some(pre.len() + lit.len() as int)
        }),
{
    let s = pre + lit + rest;
    assert(s.subrange(pre.len() as int, pre.len() + lit.len() as int) =~= lit);
}

spec fn pow10(k: nat) -> nat
    decreases k,
{
    if k == 0 {
        1
    } else {
        10 * pow10((k - 1) as nat)
    }
}

spec fn dval(d: Seq<char>) -> nat
    decreases d.len(),
{
    if d.len() == 0 {
        0
    } else {
        dval(d.drop_last()) * 10 + digit_val(d.last())
    }
}

proof fn lemma_dval_front(d: Seq<char>)
    requires
        d.len() >= 1,
    ensures
        dval(d) == digit_val(d[0]) * pow10((d.len() - 1) as nat) + dval(d.skip(1)),
    decreases d.len(),
{
    if d.len() == 1 {
        assert(d.drop_last() =~= Seq::<char>::empty());
        assert(d.skip(1) =~= Seq::<char>::empty());
        assert(d.last() == d[0]);
        assert(digit_val(d[0]) * 1 == digit_val(d[0]));
    } else {
        let dl = d.drop_last();
        lemma_dval_front(dl);
        assert(dl[0] == d[0]);
        assert(dl.skip(1) =~= d.skip(1).drop_last());
        assert(d.skip(1).last() == d.last());
        let v0 = digit_val(d[0]);
        let k1 = (d.len() - 2) as nat;
        assert(pow10((d.len() - 1) as nat) == 10 * pow10(k1));
        assert((v0 * pow10(k1) + dval(dl.skip(1))) * 10 == v0 * (10 * pow10(k1)) + dval(
            dl.skip(1),
        ) * 10) by (nonlinear_arith);
        assert(dval(d.skip(1)) == dval(d.skip(1).drop_last()) * 10 + digit_val(d.skip(1).last()));
    }
}

proof fn lemma_udec_props(n: nat)
    ensures
        spec_udec(n).len() >= 1,
        forall|k: int| 0 <= k < spec_udec(n).len() ==> is_digit(#[trigger] spec_udec(n)[k]),
        dval(spec_udec(n)) == n,
    decreases n,
{
    if n < 10 {
        let d = spec_udec(n);
        assert(d =~= seq![digit_char(n)]);
        assert(is_digit(digit_char(n)));
        assert(digit_val(digit_char(n)) == n);
        assert(d.drop_last() =~= Seq::<char>::empty());
        assert(dval(d) == dval(Seq::<char>::empty()) * 10 + digit_val(d.last()));
    } else {
        lemma_udec_props(n / 10);
        let b = spec_udec(n / 10);
        let d = spec_udec(n);
        assert(d == b.push(digit_char(n % 10)));
        assert(d.drop_last() =~= b);
        assert(d.last() == digit_char(n % 10));
        assert(is_digit(digit_char(n % 10)));
        assert(digit_val(digit_char(n % 10)) == n % 10);
        vstd::arithmetic::div_mod::lemma_fundamental_div_mod(n as int, 10);
        assert(dval(d) == (n / 10) * 10 + n % 10);
        assert(forall|k: int| 0 <= k < d.len() ==> is_digit(#[trigger] d[k])) by {
            assert(forall|k: int| 0 <= k < b.len() ==> d[k] == #[trigger] b[k]);
        }
    }
}

proof fn lemma_scan_digits(s: Seq<char>, i: int, d: Seq<char>, acc: nat)
    requires
        0 <= i,
        i + d.len() <= s.len(),
        s.subrange(i, i + d.len() as int) == d,
        forall|k: int| 0 <= k < d.len() ==> is_digit(#[trigger] d[k]),
        i + d.len() == s.len() || !is_digit(s[i + d.len()]),
    ensures
        sp_digits(s, i, acc) == (acc * pow10(d.len()) + dval(d), i + d.len() as int),
    decreases d.len(),
{
    if d.len() == 0 {
        assert(i == s.len() || !is_digit(s[i]));
        assert(acc * 1 == acc);
    } else {
        assert(s[i] == d[0]) by {
            assert(s.subrange(i, i + d.len() as int)[0] == s[i]);
        }
        assert(is_digit(s[i]));
        let d1 = d.skip(1);
        assert(s.subrange(i + 1, i + 1 + d1.len() as int) =~= d1);
        assert(forall|k: int| 0 <= k < d1.len() ==> is_digit(#[trigger] d1[k])) by {
            assert(forall|k: int| 0 <= k < d1.len() ==> d1[k] == #[trigger] d[k + 1]);
        }
        let acc1 = acc * 10 + digit_val(d[0]);
        lemma_scan_digits(s, i + 1, d1, acc1);
        lemma_dval_front(d);
        assert(pow10(d.len()) == 10 * pow10(d1.len()));
        assert(acc1 * pow10(d1.len()) + dval(d1) == acc * (10 * pow10(d1.len())) + (digit_val(d[0])
            * pow10(d1.len()) + dval(d1))) by (nonlinear_arith)
            requires
                acc1 == acc * 10 + digit_val(d[0]),
        ;
        assert(digit_val(s[i]) == digit_val(d[0]));
    }
}

proof fn lemma_parse_u64_at(pre: Seq<char>, n: nat, rest: Seq<char>)
    requires
        rest.len() == 0 || !is_digit(rest[0]),
    ensures
        ({
            let s = pre + spec_udec(n) + rest;
            sp_uint(s, pre.len() as int) == Some((n, (pre.len() + spec_udec(n).len()) as int))
        }),
{
    let s = pre + spec_udec(n) + rest;
    let i = pre.len() as int;
    lemma_udec_props(n);
    let d = spec_udec(n);
    assert(s.subrange(i, i + d.len() as int) =~= d);
    if rest.len() > 0 {
        assert(s[i + d.len()] == rest[0]);
    } else {
        assert(i + d.len() == s.len());
    }
    lemma_scan_digits(s, i, d, 0);
    assert(0 * pow10(d.len()) == 0) by (nonlinear_arith);
    assert(s[i] == d[0]) by {
        assert(s.subrange(i, i + d.len() as int)[0] == s[i]);
    }
    assert(is_digit(s[i]));
}

proof fn lemma_parse_i64_at(pre: Seq<char>, n: int, rest: Seq<char>)
    requires
        rest.len() == 0 || !is_digit(rest[0]),
        i64::MIN <= n <= i64::MAX,
    ensures
        ({
            let s = pre + spec_idec(n) + rest;
            sp_i64(s, pre.len() as int) == Some((n, (pre.len() + spec_idec(n).len()) as int))
        }),
{
    let s = pre + spec_idec(n) + rest;
    let i = pre.len() as int;
    if n < 0 {
        let m = (-n) as nat;
        let pre2 = pre + seq!['-'];
        lemma_parse_u64_at(pre2, m, rest);
        assert(pre2 + spec_udec(m) + rest =~= s);
        assert(s[i] == '-');
        assert(spec_idec(n).len() == 1 + spec_udec(m).len());
        assert(sp_uint(s, i + 1) == Some((m, (pre2.len() + spec_udec(m).len()) as int)));
    } else {
        lemma_parse_u64_at(pre, n as nat, rest);
        lemma_udec_props(n as nat);
        assert(s[i] == spec_udec(n as nat)[0]) by {
            assert(s.subrange(i, i + spec_udec(n as nat).len() as int) =~= spec_udec(n as nat));
            assert(s.subrange(i, i + spec_udec(n as nat).len() as int)[0] == s[i]);
        }
        assert(is_digit(s[i]));
        assert(s[i] != '-');
    }
}

} // verus!

verus! {

/// The printed form of an array's remaining items, the closing bracket
/// included.
spec fn arr_tail(items: Seq<Seq<char>>) -> Seq<char>
    decreases items.len(),
{
    if items.len() == 0 {
        seq![']']
    } else {
        seq![','] + pstr(items[0]) + arr_tail(items.skip(1))
    }
}

proof fn lemma_parr_decomp(items: Seq<Seq<char>>)
    requires
        items.len() >= 1,
    ensures
        parr_items(items) + seq![']'] == pstr(items[0]) + arr_tail(items.skip(1)),
    decreases items.len(),
{
    if items.len() == 1 {
        assert(arr_tail(items.skip(1)) == seq![']']);
    } else {
        lemma_parr_decomp(items.skip(1));
        assert(items.skip(1)[0] == items[1]);
        assert((pstr(items[0]) + seq![','] + parr_items(items.skip(1))) + seq![']'] =~= pstr(
            items[0],
        ) + (seq![','] + (parr_items(items.skip(1)) + seq![']'])));
        assert(seq![','] + (pstr(items.skip(1)[0]) + arr_tail(items.skip(1).skip(1))) =~= seq![',']
            + pstr(items.skip(1)[0]) + arr_tail(items.skip(1).skip(1)));
    }
}

proof fn lemma_parse_arr_rest_at(pre: Seq<char>, acc: Seq<Seq<char>>, items: Seq<Seq<char>>, rest: Seq<char>)
    ensures
        ({
            let s = pre + arr_tail(items) + rest;
            sp_arr_rest(s, pre.len() as int, acc) == Some(
                (acc + items, (pre.len() + arr_tail(items).len()) as int),
            )
        }),
    decreases items.len(),
{
    let s = pre + arr_tail(items) + rest;
    let i = pre.len() as int;
    if items.len() == 0 {
        assert(s[i] == ']');
        assert(acc + items =~= acc);
    } else {
        assert(s[i] == ',');
        let v = items[0];
        let items1 = items.skip(1);
        let pre2 = pre + seq![','];
        lemma_parse_string_at(pre2, v, arr_tail(items1) + rest);
        assert(pre2 + pstr(v) + (arr_tail(items1) + rest) =~= s);
        let j = pre2.len() + pstr(v).len();
        assert(sp_string(s, i + 1) == Some((v, j as int)));
        let pre3 = pre + seq![','] + pstr(v);
        lemma_parse_arr_rest_at(pre3, acc.push(v), items1, rest);
        assert(pre3 + arr_tail(items1) + rest =~= s);
        assert(pre3.len() == j);
        assert(acc.push(v) + items1 =~= acc + items);
        assert(arr_tail(items).len() == 1 + pstr(v).len() + arr_tail(items1).len());
        assert(j <= s.len());
        assert(i + 1 < j);
    }
}

proof fn lemma_parse_arr_at(pre: Seq<char>, items: Seq<Seq<char>>, rest: Seq<char>)
    ensures
        ({
            let s = pre + parr(items) + rest;
            sp_arr(s, pre.len() as int) == Some((items, (pre.len() + parr(items).len()) as int))
        }),
{
    let s = pre + parr(items) + rest;
    let i = pre.len() as int;
    assert(s[i] == '[');
    if items.len() == 0 {
        assert(parr_items(items) == Seq::<char>::empty());
        assert(s[i + 1] == ']');
        assert(parr(items).len() == 2);
        assert(Seq::<Seq<char>>::empty() =~= items);
    } else {
        lemma_parr_decomp(items);
        let v = items[0];
        let items1 = items.skip(1);
        let pre2 = pre + seq!['['];
        lemma_parse_string_at(pre2, v, arr_tail(items1) + rest);
        assert(s =~= pre + seq!['['] + (parr_items(items) + seq![']']) + rest);
        assert(pre + seq!['['] + (parr_items(items) + seq![']']) + rest == pre + seq!['['] + (pstr(
            v,
        ) + arr_tail(items1)) + rest);
        assert(pre + seq!['['] + (pstr(v) + arr_tail(items1)) + rest =~= pre2 + pstr(v) + (
        arr_tail(items1) + rest));
        assert(pre2 + pstr(v) + (arr_tail(items1) + rest) =~= s);
        let j = pre2.len() + pstr(v).len();
        assert(sp_string(s, i + 1) == Some((v, j as int)));
        // the character after `[` opens a string, not `]`
        assert(s[i + 1] == '"');
        let pre3 = pre + seq!['['] + pstr(v);
        lemma_parse_arr_rest_at(pre3, seq![v], items1, rest);
        assert(pre3 + arr_tail(items1) + rest =~= s);
        assert(pre3.len() == j);
        assert(seq![v] + items1 =~= items);
        assert(parr(items).len() == 2 + parr_items(items).len());
        assert(parr_items(items).len() + 1 == pstr(v).len() + arr_tail(items1).len());
        assert(j <= s.len());
        assert(i + 1 < j);
    }
}

proof fn lemma_parse_opt_str_at(pre: Seq<char>, o: Option<Seq<char>>, rest: Seq<char>)
    ensures
        ({
            let s = pre + popt_str(o) + rest;
            sp_opt_str(s, pre.len() as int) == Some((o, (pre.len() + popt_str(o).len()) as int))
        }),
{
    let s = pre + popt_str(o) + rest;
    let i = pre.len() as int;
    match o {
        None => {
            lemma_parse_lit_at(pre, "null"@, rest);
        },
        Some(v) => {
            reveal_strlit("null");
            assert(s[i] == '"');
            // a string literal can never begin the word `null`
            if sp_lit(s, i, "null"@) is Some {
                assert(s.subrange(i, i + "null"@.len() as int)[0] == s[i]);
                assert(false);
            }
            lemma_parse_string_at(pre, v, rest);
        },
    }
}

proof fn lemma_parse_opt_i64_at(pre: Seq<char>, o: Option<int>, rest: Seq<char>)
    requires
        rest.len() == 0 || !is_digit(rest[0]),
        match o {
            Some(t) => i64::MIN <= t <= i64::MAX,
            None => true,
        },
    ensures
        ({
            let s = pre + popt_i(o) + rest;
            sp_opt_i64(s, pre.len() as int) == Some((o, (pre.len() + popt_i(o).len()) as int))
        }),
{
    let s = pre + popt_i(o) + rest;
    let i = pre.len() as int;
    match o {
        None => {
            lemma_parse_lit_at(pre, "null"@, rest);
        },
        Some(t) => {
            reveal_strlit("null");
            lemma_parse_i64_at(pre, t, rest);
            assert(s[i] == spec_idec(t)[0]) by {
                assert(s.subrange(i, i + spec_idec(t).len() as int) =~= spec_idec(t));
                assert(s.subrange(i, i + spec_idec(t).len() as int)[0] == s[i]);
            }
            if t < 0 {
                assert(spec_idec(t)[0] == '-');
            } else {
                lemma_udec_props(t as nat);
                assert(is_digit(spec_idec(t)[0]));
            }
            if sp_lit(s, i, "null"@) is Some {
                assert(s.subrange(i, i + "null"@.len() as int)[0] == s[i]);
                assert(false);
            }
        },
    }
}

proof fn lemma_parse_opt_u64_at(pre: Seq<char>, o: Option<int>, rest: Seq<char>)
    requires
        rest.len() == 0 || !is_digit(rest[0]),
        match o {
            Some(t) => 0 <= t <= u64::MAX,
            None => true,
        },
    ensures
        ({
            let s = pre + popt_i(o) + rest;
            sp_opt_u64(s, pre.len() as int) == Some((o, (pre.len() + popt_i(o).len()) as int))
        }),
{
    let s = pre + popt_i(o) + rest;
    let i = pre.len() as int;
    match o {
        None => {
            lemma_parse_lit_at(pre, "null"@, rest);
        },
        Some(t) => {
            reveal_strlit("null");
            assert(spec_idec(t) == spec_udec(t as nat));
            lemma_parse_u64_at(pre, t as nat, rest);
            lemma_udec_props(t as nat);
            assert(s[i] == spec_udec(t as nat)[0]) by {
                assert(s.subrange(i, i + spec_udec(t as nat).len() as int) =~= spec_udec(t as nat));
                assert(s.subrange(i, i + spec_udec(t as nat).len() as int)[0] == s[i]);
            }
            assert(is_digit(s[i]));
            if sp_lit(s, i, "null"@) is Some {
                assert(s.subrange(i, i + "null"@.len() as int)[0] == s[i]);
                assert(false);
            }
        },
    }
}

} // verus!

verus! {

/// The printed tail of a metadata object, from the categories key on.
spec fn pmeta_tail(m: MetaV) -> Seq<char> {
    ",\"categories\":"@ + parr(m.categories) + ",\"pdf_path\":"@ + popt_str(m.pdf_path)
        + ",\"downloaded_at\":"@ + popt_i(m.downloaded_at) + ",\"file_size\":"@ + popt_i(
        m.file_size,
    ) + seq!['}']
}

#[verifier::rlimit(100)]
#[verifier::spinoff_prover]
proof fn lemma_pmeta_decomp(m: MetaV)
    ensures
        pmeta(m) == "{\"arxiv_id\":"@ + pstr(m.arxiv_id) + ",\"title\":"@ + pstr(m.title)
            + ",\"authors\":"@ + parr(m.authors) + ",\"abstract_text\":"@ + pstr(m.abstract_text)
            + ",\"published\":"@ + spec_idec(m.published) + ",\"updated\":"@ + spec_idec(m.updated)
            + pmeta_tail(m),
{
    assert(pmeta(m) =~= "{\"arxiv_id\":"@ + pstr(m.arxiv_id) + ",\"title\":"@ + pstr(m.title)
        + ",\"authors\":"@ + parr(m.authors) + ",\"abstract_text\":"@ + pstr(m.abstract_text)
        + ",\"published\":"@ + spec_idec(m.published) + ",\"updated\":"@ + spec_idec(m.updated)
        + pmeta_tail(m));
}

#[verifier::rlimit(100)]
#[verifier::spinoff_prover]
proof fn lemma_parse_meta_tail_at(pre: Seq<char>, m: MetaV, rest: Seq<char>)
    requires
        match m.downloaded_at {
            Some(t) => i64::MIN <= t <= i64::MAX,
            None => true,
        },
        match m.file_size {
            Some(t) => 0 <= t <= u64::MAX,
            None => true,
        },
    ensures
        ({
            let s = pre + pmeta_tail(m) + rest;
            sp_meta_tail(
                s,
                pre.len() as int,
                m.arxiv_id,
                m.title,
                m.authors,
                m.abstract_text,
                m.published,
                m.updated,
            ) == Some((m, (pre.len() + pmeta_tail(m).len()) as int))
        }),
{
    reveal_strlit(",\"file_size\":");
    let s = pre + pmeta_tail(m) + rest;
    let r7 = seq!['}'] + rest;
    let r6 = popt_i(m.file_size) + r7;
    let r5 = ",\"file_size\":"@ + r6;
    let r4 = popt_i(m.downloaded_at) + r5;
    let r3 = ",\"downloaded_at\":"@ + r4;
    let r2 = popt_str(m.pdf_path) + r3;
    let r1 = ",\"pdf_path\":"@ + r2;
    let r0 = parr(m.categories) + r1;
    assert(pmeta_tail(m) + rest =~= ",\"categories\":"@ + r0);
    lemma_concat_assoc(pre, pmeta_tail(m), rest);
    // s == pre + (",\"categories\":" + r0)
    lemma_concat_assoc(pre, ",\"categories\":"@, r0);
    lemma_parse_lit_at(pre, ",\"categories\":"@, r0);
    let p1 = pre + ",\"categories\":"@;
    // s == p1 + r0, r0 == parr + r1
    lemma_concat_assoc(p1, parr(m.categories), r1);
    lemma_parse_arr_at(p1, m.categories, r1);
    let p2 = p1 + parr(m.categories);
    lemma_concat_assoc(p2, ",\"pdf_path\":"@, r2);
    lemma_parse_lit_at(p2, ",\"pdf_path\":"@, r2);
    let p3 = p2 + ",\"pdf_path\":"@;
    lemma_concat_assoc(p3, popt_str(m.pdf_path), r3);
    lemma_parse_opt_str_at(p3, m.pdf_path, r3);
    let p4 = p3 + popt_str(m.pdf_path);
    lemma_concat_assoc(p4, ",\"downloaded_at\":"@, r4);
    lemma_parse_lit_at(p4, ",\"downloaded_at\":"@, r4);
    let p5 = p4 + ",\"downloaded_at\":"@;
    assert(r5[0] == ',');
    assert(!is_digit(','));
    lemma_concat_assoc(p5, popt_i(m.downloaded_at), r5);
    lemma_parse_opt_i64_at(p5, m.downloaded_at, r5);
    let p6 = p5 + popt_i(m.downloaded_at);
    lemma_concat_assoc(p6, ",\"file_size\":"@, r6);
    lemma_parse_lit_at(p6, ",\"file_size\":"@, r6);
    let p7 = p6 + ",\"file_size\":"@;
    assert(r7[0] == '}');
    assert(!is_digit('}'));
    lemma_concat_assoc(p7, popt_i(m.file_size), r7);
    lemma_parse_opt_u64_at(p7, m.file_size, r7);
    let p8 = p7 + popt_i(m.file_size);
    // s == p8 + r7, and r7 opens with the closing brace
    assert(s[p8.len() as int] == '}');
    let built = MetaV {
        arxiv_id: m.arxiv_id,
        title: m.title,
        authors: m.authors,
        abstract_text: m.abstract_text,
        published: m.published,
        updated: m.updated,
        categories: m.categories,
        pdf_path: m.pdf_path,
        downloaded_at: m.downloaded_at,
        file_size: m.file_size,
    };
    assert(built =~~= m);
    assert(p8.len() + 1 == pre.len() + pmeta_tail(m).len());
}

#[verifier::rlimit(100)]
#[verifier::spinoff_prover]
proof fn lemma_parse_meta_at(pre: Seq<char>, m: MetaV, rest: Seq<char>)
    requires
        i64::MIN <= m.published <= i64::MAX,
        i64::MIN <= m.updated <= i64::MAX,
        match m.downloaded_at {
            Some(t) => i64::MIN <= t <= i64::MAX,
            None => true,
        },
        match m.file_size {
            Some(t) => 0 <= t <= u64::MAX,
            None => true,
        },
    ensures
        ({
            let s = pre + pmeta(m) + rest;
            sp_meta(s, pre.len() as int) == Some((m, (pre.len() + pmeta(m).len()) as int))
        }),
{
    reveal_strlit(",\"updated\":");
    reveal_strlit(",\"categories\":");
    lemma_pmeta_decomp(m);
    let s = pre + pmeta(m) + rest;
    let a1 = "{\"arxiv_id\":"@;
    let a2 = pstr(m.arxiv_id);
    let a3 = ",\"title\":"@;
    let a4 = pstr(m.title);
    let a5 = ",\"authors\":"@;
    let a6 = parr(m.authors);
    let a7 = ",\"abstract_text\":"@;
    let a8 = pstr(m.abstract_text);
    let a9 = ",\"published\":"@;
    let a10 = spec_idec(m.published);
    let a11 = ",\"updated\":"@;
    let a12 = spec_idec(m.updated);
    let tl = pmeta_tail(m);
    // name the left prefixes of the printed object
    let h2 = a1 + a2;
    let h3 = h2 + a3;
    let h4 = h3 + a4;
    let h5 = h4 + a5;
    let h6 = h5 + a6;
    let h7 = h6 + a7;
    let h8 = h7 + a8;
    let h9 = h8 + a9;
    let h10 = h9 + a10;
    let h11 = h10 + a11;
    let h12 = h11 + a12;
    assert(pmeta(m) == h12 + tl);
    // name the parse positions
    let q1 = pre + a1;
    let q2 = q1 + a2;
    let q3 = q2 + a3;
    let q4 = q3 + a4;
    let q5 = q4 + a5;
    let q6 = q5 + a6;
    let q7 = q6 + a7;
    let q8 = q7 + a8;
    let q9 = q8 + a9;
    let q10 = q9 + a10;
    let q11 = q10 + a11;
    let q12 = q11 + a12;
    // shifting the whole printed object after `pre` lands each piece at
    // its parse position
    lemma_concat_assoc(pre, a1, a2);
    lemma_concat_assoc(pre, h2, a3);
    lemma_concat_assoc(pre, h3, a4);
    lemma_concat_assoc(pre, h4, a5);
    lemma_concat_assoc(pre, h5, a6);
    lemma_concat_assoc(pre, h6, a7);
    lemma_concat_assoc(pre, h7, a8);
    lemma_concat_assoc(pre, h8, a9);
    lemma_concat_assoc(pre, h9, a10);
    lemma_concat_assoc(pre, h10, a11);
    lemma_concat_assoc(pre, h11, a12);
    assert(pre + h12 == q12);
    let rt = tl + rest;
    lemma_concat_assoc(pre, pmeta(m), rest);
    lemma_concat_assoc(pre, h12, tl);
    lemma_concat_assoc(q12, tl, rest);
    assert(s == q12 + rt);
    // peel the pieces back off to expose each remainder
    let r6 = a12 + rt;
    lemma_concat_assoc(q11, a12, rt);
    assert(s == q11 + r6);
    let r5 = a11 + r6;
    lemma_concat_assoc(q10, a11, r6);
    assert(s == q10 + r5);
    let r4 = a10 + r5;
    lemma_concat_assoc(q9, a10, r5);
    assert(s == q9 + r4);
    let r3b = a9 + r4;
    lemma_concat_assoc(q8, a9, r4);
    assert(s == q8 + r3b);
    let r3 = a8 + r3b;
    lemma_concat_assoc(q7, a8, r3b);
    assert(s == q7 + r3);
    let r2b = a7 + r3;
    lemma_concat_assoc(q6, a7, r3);
    assert(s == q6 + r2b);
    let r2 = a6 + r2b;
    lemma_concat_assoc(q5, a6, r2b);
    assert(s == q5 + r2);
    let r1b = a5 + r2;
    lemma_concat_assoc(q4, a5, r2);
    assert(s == q4 + r1b);
    let r1 = a4 + r1b;
    lemma_concat_assoc(q3, a4, r1b);
    assert(s == q3 + r1);
    let r0b = a3 + r1;
    lemma_concat_assoc(q2, a3, r1);
    assert(s == q2 + r0b);
    let r0 = a2 + r0b;
    lemma_concat_assoc(q1, a2, r0b);
    assert(s == q1 + r0);
    lemma_concat_assoc(pre, a1, r0);
    assert(s == pre + a1 + r0);
    // now parse, piece by piece
    lemma_parse_lit_at(pre, a1, r0);
    lemma_parse_string_at(q1, m.arxiv_id, r0b);
    assert(q1 + a2 + r0b == s);
    lemma_parse_lit_at(q2, a3, r1);
    assert(q2 + a3 + r1 == s);
    lemma_parse_string_at(q3, m.title, r1b);
    assert(q3 + a4 + r1b == s);
    lemma_parse_lit_at(q4, a5, r2);
    assert(q4 + a5 + r2 == s);
    lemma_parse_arr_at(q5, m.authors, r2b);
    assert(q5 + a6 + r2b == s);
    lemma_parse_lit_at(q6, a7, r3);
    assert(q6 + a7 + r3 == s);
    lemma_parse_string_at(q7, m.abstract_text, r3b);
    assert(q7 + a8 + r3b == s);
    lemma_parse_lit_at(q8, a9, r4);
    assert(q8 + a9 + r4 == s);
    assert(r5[0] == ',');
    assert(!is_digit(','));
    lemma_parse_i64_at(q9, m.published, r5);
    assert(q9 + a10 + r5 == s);
    lemma_parse_lit_at(q10, a11, r6);
    assert(q10 + a11 + r6 == s);
    assert(tl.len() > 0);
    assert(rt[0] == ',');
    lemma_parse_i64_at(q11, m.updated, rt);
    assert(q11 + a12 + rt == s);
    lemma_parse_meta_tail_at(q12, m, rest);
    assert(q12 + tl + rest == s);
    assert(q12.len() + tl.len() == pre.len() + pmeta(m).len());
}

} // verus!

verus! {

#[verifier::rlimit(100)]
#[verifier::spinoff_prover]
proof fn lemma_parse_entry_at(pre: Seq<char>, m: MetaV, rest: Seq<char>)
    requires
        i64::MIN <= m.published <= i64::MAX,
        i64::MIN <= m.updated <= i64::MAX,
        match m.downloaded_at {
            Some(t) => i64::MIN <= t <= i64::MAX,
            None => true,
        },
        match m.file_size {
            Some(t) => 0 <= t <= u64::MAX,
            None => true,
        },
    ensures
        ({
            let s = pre + pentry(m) + rest;
            sp_entry(s, pre.len() as int) == Some((m, (pre.len() + pentry(m).len()) as int))
        }),
{
    let s = pre + pentry(m) + rest;
    let a1 = pstr(m.arxiv_id);
    let a2 = seq![':'];
    let a3 = pmeta(m);
    let q1 = pre + a1;
    let q2 = q1 + a2;
    lemma_concat_assoc(pre, pentry(m), rest);
    lemma_concat_assoc(a1 + a2, a3, rest);
    lemma_concat_assoc(a1, a2, a3 + rest);
    let r0 = a2 + (a3 + rest);
    lemma_concat_assoc(pre, a1, r0);
    assert(s == pre + a1 + r0);
    lemma_parse_string_at(pre, m.arxiv_id, r0);
    assert(s[q1.len() as int] == ':');
    lemma_concat_assoc(q1, a2, a3 + rest);
    assert(s == q2 + (a3 + rest));
    lemma_concat_assoc(q2, a3, rest);
    assert(s == q2 + a3 + rest);
    lemma_parse_meta_at(q2, m, rest);
    assert(q2.len() + pmeta(m).len() == pre.len() + pentry(m).len());
}

/// The printed form of a document's remaining entries, the closing
/// line included.
spec fn doc_tail(es: Seq<MetaV>) -> Seq<char>
    decreases es.len(),
{
    if es.len() == 0 {
        "\n}"@
    } else {
        ",\n  "@ + pentry(es[0]) + doc_tail(es.skip(1))
    }
}

proof fn lemma_pdoc_decomp(es: Seq<MetaV>)
    requires
        es.len() >= 1,
    ensures
        pdoc_items(es) + "\n}"@ == pentry(es[0]) + doc_tail(es.skip(1)),
    decreases es.len(),
{
    if es.len() == 1 {
        assert(doc_tail(es.skip(1)) == "\n}"@);
    } else {
        lemma_pdoc_decomp(es.skip(1));
        let e0 = pentry(es[0]);
        let sep = ",\n  "@;
        let pi1 = pdoc_items(es.skip(1));
        let br = "\n}"@;
        let pe1 = pentry(es.skip(1)[0]);
        let dt1 = doc_tail(es.skip(1).skip(1));
        assert(pdoc_items(es) == e0 + sep + pi1);
        assert(doc_tail(es.skip(1)) == sep + pe1 + dt1);
        lemma_concat_assoc(e0 + sep, pi1, br);
        lemma_concat_assoc(sep, pe1, dt1);
        lemma_concat_assoc(e0, sep, pe1 + dt1);
    }
}

#[verifier::rlimit(100)]
#[verifier::spinoff_prover]
proof fn lemma_parse_doc_rest_at(pre: Seq<char>, acc: Seq<MetaV>, es: Seq<MetaV>)
    requires
        forall|k: int| 0 <= k < es.len() ==> crate::store::wf_meta(#[trigger] es[k]),
    ensures
        ({
            let s = pre + doc_tail(es);
            sp_doc_rest(s, pre.len() as int, acc) == Some(acc + es)
        }),
    decreases es.len(),
{
    reveal_strlit("\n}");
    reveal_strlit(",\n  ");
    let s = pre + doc_tail(es);
    if es.len() == 0 {
        assert(s[pre.len() as int] == '\n');
        assert(s[pre.len() + 1 as int] == '}');
        assert(pre.len() + 2 == s.len());
        assert(acc + es =~= acc);
    } else {
        let m = es[0];
        let es1 = es.skip(1);
        assert(crate::store::wf_meta(m));
        let a1 = ",\n  "@;
        let a2 = pentry(m);
        let a3 = doc_tail(es1);
        assert(doc_tail(es) == a1 + a2 + a3);
        lemma_concat_assoc(a1, a2, a3);
        lemma_concat_assoc(pre, a1, a2 + a3);
        assert(s == (pre + a1) + (a2 + a3));
        assert(a1.len() == 4);
        assert(s[pre.len() as int] == ',');
        assert(s[pre.len() + 1 as int] == '\n');
        assert(s[pre.len() + 2 as int] == ' ');
        assert(s[pre.len() + 3 as int] == ' ');
        lemma_concat_assoc(pre + a1, a2, a3);
        assert(s == (pre + a1) + a2 + a3);
        lemma_parse_entry_at(pre + a1, m, a3);
        let p1 = (pre.len() + 4 + pentry(m).len()) as int;
        assert(sp_entry(s, pre.len() + 4 as int) == Some((m, p1)));
        assert(pstr(m.arxiv_id).len() >= 2);
        assert(pentry(m).len() >= 3);
        assert(forall|k: int| 0 <= k < es1.len() ==> crate::store::wf_meta(#[trigger] es1[k])) by {
            assert(forall|k: int| 0 <= k < es1.len() ==> es1[k] == #[trigger] es[k + 1]);
        }
        lemma_parse_doc_rest_at(pre + a1 + a2, acc.push(m), es1);
        assert((pre + a1 + a2) + a3 == s);
        assert(acc.push(m) + es1 =~= acc + es);
    }
}

#[verifier::rlimit(100)]
#[verifier::spinoff_prover]
proof fn lemma_parse_doc_form(m: MetaV, es1: Seq<MetaV>)
    requires
        crate::store::wf_meta(m),
        forall|k: int| 0 <= k < es1.len() ==> crate::store::wf_meta(#[trigger] es1[k]),
    ensures
        sp_doc("{\n  "@ + pentry(m) + doc_tail(es1)) == Some(seq![m] + es1),
{
    reveal_strlit("{\n  ");
    let a0 = "{\n  "@;
    let a1 = pentry(m);
    let a2 = doc_tail(es1);
    let s = a0 + a1 + a2;
    assert(a0.len() == 4);
    assert(s[0] == '{');
    assert(s[1] == '\n');
    assert(s[2] == ' ');
    assert(s[3] == ' ');
    assert(pstr(m.arxiv_id).len() >= 2);
    assert(pentry(m).len() >= 3);
    assert(s.len() != 2);
    lemma_parse_entry_at(a0, m, a2);
    let p1 = (4 + pentry(m).len()) as int;
    assert(sp_entry(s, 4) == Some((m, p1)));
    lemma_parse_doc_rest_at(a0 + a1, seq![m], es1);
    assert((a0 + a1) + a2 == s);
}

#[verifier::rlimit(100)]
#[verifier::spinoff_prover]
proof fn lemma_parse_doc_nonempty(es: Seq<MetaV>)
    requires
        es.len() >= 1,
        forall|i: int| 0 <= i < es.len() ==> crate::store::wf_meta(#[trigger] es[i]),
    ensures
        sp_doc(pdoc(es)) == Some(es),
{
    let s = pdoc(es);
    lemma_pdoc_decomp(es);
    let m = es[0];
    let es1 = es.skip(1);
    assert(crate::store::wf_meta(m));
    let a0 = "{\n  "@;
    let a1 = pentry(m);
    let a2 = doc_tail(es1);
    lemma_concat_assoc(a0, pdoc_items(es), "\n}"@);
    assert(s == a0 + (pdoc_items(es) + "\n}"@));
    assert(s == a0 + (a1 + a2));
    lemma_concat_assoc(a0, a1, a2);
    assert(s == a0 + a1 + a2);
    assert(forall|k: int| 0 <= k < es1.len() ==> crate::store::wf_meta(#[trigger] es1[k])) by {
        assert(forall|k: int| 0 <= k < es1.len() ==> es1[k] == #[trigger] es[k + 1]);
    }
    lemma_parse_doc_form(m, es1);
    assert(seq![m] + es1 =~= es);
}

/// Saving and then loading reproduces the same entries: printing any
/// well-formed entry sequence and parsing the text back yields exactly
/// that sequence, field for field.
pub proof fn lemma_save_load_round_trip(es: Seq<MetaV>)
    requires
        crate::store::unique_ids(es),
        forall|i: int| 0 <= i < es.len() ==> crate::store::wf_meta(#[trigger] es[i]),
    ensures
        spec_from_json(pdoc(es)) == Some(es),
{
    let s = pdoc(es);
    if es.len() == 0 {
        assert(s == seq!['{', '}']);
        assert(s.len() == 2);
        assert(s[0] == '{');
        assert(s[1] == '}');
        assert(Seq::<MetaV>::empty() =~= es);
    } else {
        lemma_parse_doc_nonempty(es);
    }
}

} // verus!
