use vstd::prelude::*;

use crate::strutil::push_char;

verus! {

/// The canonical short form of a paper identifier: everything after the
/// last `/`, or the whole string when it holds no `/` at all.
pub open spec fn spec_normalize_id(s: Seq<char>) -> Seq<char>
    decreases s.len(),
{
    if s.len() == 0 {
        s
    } else if s[s.len() - 1] == '/' {
        Seq::empty()
    } else {
        spec_normalize_id(s.take(s.len() - 1)).push(s[s.len() - 1])
    }
}

/// Normalizing twice gives the same result as normalizing once: the
/// normal form holds no `/`, so a second pass leaves it unchanged.
pub proof fn lemma_normalize_idempotent(s: Seq<char>)
    ensures
        spec_normalize_id(spec_normalize_id(s)) == spec_normalize_id(s),
    decreases s.len(),
{
    if s.len() == 0 {
    } else if s[s.len() - 1] == '/' {
    } else {
        lemma_normalize_idempotent(s.take(s.len() - 1));
        lemma_normalize_no_slash(s);
        lemma_no_slash_fixed(spec_normalize_id(s));
    }
}

/// The normal form never holds a `/`.
pub proof fn lemma_normalize_no_slash(s: Seq<char>)
    ensures
        forall|i: int| 0 <= i < spec_normalize_id(s).len() ==> spec_normalize_id(s)[i] != '/',
    decreases s.len(),
{
    if s.len() == 0 {
    } else if s[s.len() - 1] == '/' {
    } else {
        lemma_normalize_no_slash(s.take(s.len() - 1));
        let t = spec_normalize_id(s.take(s.len() - 1));
        assert forall|i: int| 0 <= i < spec_normalize_id(s).len() implies spec_normalize_id(s)[i]
            != '/' by {
            if i < t.len() {
                assert(spec_normalize_id(s)[i] == t[i]);
            } else {
                assert(spec_normalize_id(s)[i] == s[s.len() - 1]);
            }
        }
    }
}

/// A string without `/` is its own normal form.
pub proof fn lemma_no_slash_fixed(s: Seq<char>)
    requires
        forall|i: int| 0 <= i < s.len() ==> s[i] != '/',
    ensures
        spec_normalize_id(s) == s,
    decreases s.len(),
{
    if s.len() == 0 {
    } else {
        lemma_no_slash_fixed(s.take(s.len() - 1));
        assert(spec_normalize_id(s) =~= s);
    }
}

/// Takes the substring after the last `/` of the identifier, as the
/// store, the fetcher and filename generation all require.
pub fn normalize_id(s: &str) -> (r: String)
    ensures
        r@ == spec_normalize_id(s@),
{
    let n: usize = s.unicode_len();
    let mut r = String::new();
    let mut i: usize = 0;
    while i < n
        invariant
            0 <= i <= n,
            n == s@.len(),
            r@ == spec_normalize_id(s@.take(i as int)),
        decreases n - i,
    {
        let c = s.get_char(i);
        proof {
            assert(s@.take(i + 1).take(i as int) =~= s@.take(i as int));
            assert(s@.take(i + 1)[i as int] == s@[i as int]);
        }
        if c == '/' {
            r = String::new();
        } else {
            push_char(&mut r, c);
        }
        i = i + 1;
    }
    proof {
        assert(s@.take(n as int) =~= s@);
    }
    r
}

/// The file stem of an identifier: the same characters with every `:`
/// replaced by `_`, colons being invalid in common filesystems.
pub open spec fn spec_file_stem(s: Seq<char>) -> Seq<char> {
    Seq::new(s.len(), |i: int| if s[i] == ':' { '_' } else { s[i] })
}

/// Replaces every `:` with `_`, leaving all other characters in place.
pub fn replace_colons(s: &str) -> (r: String)
    ensures
        r@ == spec_file_stem(s@),
{
    let n: usize = s.unicode_len();
    let mut r = String::new();
    let mut i: usize = 0;
    while i < n
        invariant
            0 <= i <= n,
            n == s@.len(),
            r@.len() == i,
            forall|j: int| 0 <= j < i ==> r@[j] == (if s@[j] == ':' { '_' } else { s@[j] }),
        decreases n - i,
    {
        let c = s.get_char(i);
        if c == ':' {
            push_char(&mut r, '_');
        } else {
            push_char(&mut r, c);
        }
        i = i + 1;
    }
    proof {
        assert(r@ =~= spec_file_stem(s@));
    }
    r
}

} // verus!
