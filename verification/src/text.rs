//! Character classification and small text helpers shared by both grammars.
//!
//! Unicode character classes are not re-implemented here: the standard
//! library answers them behind thin trusted wrappers, and the contracts
//! speak of the named classification functions.

use vstd::prelude::*;

verus! {

/// Whether `char::is_alphabetic` holds of a character beyond ASCII;
/// the answer depends on the character alone.
pub uninterp spec fn alphabetic_beyond_ascii(c: char) -> bool;

/// Whether `char::is_alphabetic` holds of `c`.  Within ASCII the
/// Unicode Alphabetic property holds for the letters and nothing else;
/// beyond ASCII it is left to the named classification.
pub open spec fn alphabetic(c: char) -> bool {
    if c <= '\u{7F}' {
        ('a' <= c && c <= 'z') || ('A' <= c && c <= 'Z')
    } else {
        alphabetic_beyond_ascii(c)
    }
}

/// Whether `char::is_whitespace` holds of `c`: the Unicode White_Space
/// property, a fixed set of twenty-five code points stated in full.
pub open spec fn whitespace(c: char) -> bool {
    ('\u{9}' <= c && c <= '\u{D}') || c == ' ' || c == '\u{85}' || c == '\u{A0}' || c
        == '\u{1680}' || ('\u{2000}' <= c && c <= '\u{200A}') || c == '\u{2028}' || c
        == '\u{2029}' || c == '\u{202F}' || c == '\u{205F}' || c == '\u{3000}'
}

/// Relies on char::is_alphabetic: it answers exactly the Unicode
/// Alphabetic property, which within ASCII holds for the letters and
/// nothing else.
#[verifier::external_body]
pub fn char_is_alphabetic(c: char) -> (r: bool)
    ensures
        r == alphabetic(c),
        !(c <= '\u{7F}') ==> r == alphabetic_beyond_ascii(c),
{
    c.is_alphabetic()
}

/// Relies on char::is_whitespace: it answers exactly the White_Space
/// property spelled out by `whitespace`.
#[verifier::external_body]
pub fn char_is_whitespace(c: char) -> (r: bool)
    ensures
        r == whitespace(c),
{
    c.is_whitespace()
}

/// Relies on str's equality operator: true exactly when the two string
/// slices hold the same characters.
#[verifier::external_body]
pub fn str_eq(a: &str, b: &str) -> (r: bool)
    ensures
        r == (a@ == b@),
{
    a == b
}

/// Relies on String::push: appends one character to the end of the string.
#[verifier::external_body]
pub fn push_char(s: &mut String, c: char)
    ensures
        final(s)@ == old(s)@.push(c),
{
    s.push(c);
}

/// The characters of `s` as a vector, in order.
pub fn str_to_chars(s: &str) -> (r: Vec<char>)
    ensures
        r@ == s@,
{
    let n = s.unicode_len();
    let mut r: Vec<char> = Vec::new();
    let mut i: usize = 0;
    while i < n
        invariant
            n == s@.len(),
            i <= n,
            r@ == s@.subrange(0, i as int),
        decreases n - i,
    {
        r.push(s.get_char(i));
        i = i + 1;
        proof {
            assert(r@ =~= s@.subrange(0, i as int));
        }
    }
    proof {
        assert(r@ =~= s@);
    }
    r
}

/// The characters of `v`, collected into a string.
pub fn chars_to_string(v: &Vec<char>) -> (s: String)
    ensures
        s@ == v@,
{
    let mut s = String::new();
    let mut i: usize = 0;
    while i < v.len()
        invariant
            i <= v@.len(),
            s@ == v@.subrange(0, i as int),
        decreases v@.len() - i,
    {
        push_char(&mut s, v[i]);
        i = i + 1;
        proof {
            assert(s@ =~= v@.subrange(0, i as int));
        }
    }
    proof {
        assert(s@ =~= v@);
    }
    s
}

/// The characters of `v` between `lo` (inclusive) and `hi` (exclusive).
pub fn subvec(v: &Vec<char>, lo: usize, hi: usize) -> (r: Vec<char>)
    requires
        lo <= hi <= v@.len(),
    ensures
        r@ == v@.subrange(lo as int, hi as int),
{
    let mut r: Vec<char> = Vec::new();
    let mut i = lo;
    while i < hi
        invariant
            lo <= i <= hi <= v@.len(),
            r@ == v@.subrange(lo as int, i as int),
        decreases hi - i,
    {
        r.push(v[i]);
        i = i + 1;
        proof {
            assert(r@ =~= v@.subrange(lo as int, i as int));
        }
    }
    proof {
        assert(r@ =~= v@.subrange(lo as int, hi as int));
    }
    r
}

/// First index at or after `i` whose character is not whitespace.
pub open spec fn ws_from(s: Seq<char>, i: int) -> int
    decreases s.len() - i,
    when 0 <= i <= s.len()
{
    if i < s.len() && whitespace(s[i]) {
        ws_from(s, i + 1)
    } else {
        i
    }
}

/// Last index at or before `i` such that every character from there on,
/// up to `i`, is whitespace.
pub open spec fn ws_until(s: Seq<char>, i: int) -> int
    decreases i,
    when 0 <= i <= s.len()
{
    if i > 0 && whitespace(s[i - 1]) {
        ws_until(s, i - 1)
    } else {
        i
    }
}

/// Every character of `s` is whitespace.
pub open spec fn all_whitespace(s: Seq<char>) -> bool {
    ws_from(s, 0) == s.len()
}

/// `s` with leading and trailing whitespace removed.
pub open spec fn trim_spec(s: Seq<char>) -> Seq<char> {
    if ws_from(s, 0) <= ws_until(s, s.len() as int) {
        s.subrange(ws_from(s, 0), ws_until(s, s.len() as int))
    } else {
        Seq::empty()
    }
}

/// `s` with trailing whitespace removed.
pub open spec fn trim_end_spec(s: Seq<char>) -> Seq<char> {
    s.subrange(0, ws_until(s, s.len() as int))
}

pub proof fn lemma_ws_from_bounds(s: Seq<char>, i: int)
    requires
        0 <= i <= s.len(),
    ensures
        i <= ws_from(s, i) <= s.len(),
        forall|j: int| i <= j < ws_from(s, i) ==> whitespace(s[j]),
    decreases s.len() - i,
{
    if i < s.len() && whitespace(s[i]) {
        lemma_ws_from_bounds(s, i + 1);
    }
}

pub proof fn lemma_ws_until_bounds(s: Seq<char>, i: int)
    requires
        0 <= i <= s.len(),
    ensures
        0 <= ws_until(s, i) <= i,
        forall|j: int| ws_until(s, i) <= j < i ==> whitespace(s[j]),
    decreases i,
{
    if i > 0 && whitespace(s[i - 1]) {
        lemma_ws_until_bounds(s, i - 1);
    }
}

/// Index of the first non-whitespace character of `v` at or after `i`.
pub fn scan_ws_from(v: &Vec<char>, i: usize) -> (r: usize)
    requires
        i <= v@.len(),
    ensures
        r as int == ws_from(v@, i as int),
{
    let mut k = i;
    while k < v.len() && char_is_whitespace(v[k])
        invariant
            i <= k <= v@.len(),
            ws_from(v@, i as int) == ws_from(v@, k as int),
        decreases v@.len() - k,
    {
        k = k + 1;
    }
    k
}

/// Index after the last non-whitespace character of `v` at or before `i`.
pub fn scan_ws_until(v: &Vec<char>, i: usize) -> (r: usize)
    requires
        i <= v@.len(),
    ensures
        r as int == ws_until(v@, i as int),
{
    let mut k = i;
    while k > 0 && char_is_whitespace(v[k - 1])
        invariant
            k <= i <= v@.len(),
            ws_until(v@, i as int) == ws_until(v@, k as int),
        decreases k,
    {
        k = k - 1;
    }
    k
}

/// `s` with leading and trailing whitespace removed, as the standard
/// trim operation produces it.
pub fn trim_string(s: &String) -> (r: String)
    ensures
        r@ == trim_spec(s@),
{
    let chars = str_to_chars(s.as_str());
    let lo = scan_ws_from(&chars, 0);
    let hi = scan_ws_until(&chars, chars.len());
    proof {
        lemma_ws_from_bounds(s@, 0);
        lemma_ws_until_bounds(s@, s@.len() as int);
    }
    let mut r = String::new();
    if lo < hi {
        let mut i = lo;
        while i < hi
            invariant
                lo <= i <= hi,
                hi <= chars@.len(),
                chars@ == s@,
                r@ == s@.subrange(lo as int, i as int),
            decreases hi - i,
        {
            push_char(&mut r, chars[i]);
            i = i + 1;
            proof {
                assert(r@ =~= s@.subrange(lo as int, i as int));
            }
        }
    }
    proof {
        if lo < hi {
            assert(r@ =~= trim_spec(s@));
        } else {
            assert(r@ =~= trim_spec(s@));
        }
    }
    r
}

/// `s` with trailing whitespace removed.
pub fn trim_end_string(s: &String) -> (r: String)
    ensures
        r@ == trim_end_spec(s@),
{
    let chars = str_to_chars(s.as_str());
    let hi = scan_ws_until(&chars, chars.len());
    proof {
        lemma_ws_until_bounds(s@, s@.len() as int);
    }
    let mut r = String::new();
    let mut i: usize = 0;
    while i < hi
        invariant
            i <= hi,
            hi <= chars@.len(),
            chars@ == s@,
            hi as int == ws_until(s@, s@.len() as int),
            r@ == s@.subrange(0, i as int),
        decreases hi - i,
    {
        push_char(&mut r, chars[i]);
        i = i + 1;
        proof {
            assert(r@ =~= s@.subrange(0, i as int));
        }
    }
    proof {
        assert(r@ =~= trim_end_spec(s@));
    }
    r
}

/// True exactly when every character of `s` is whitespace.
pub fn string_all_whitespace(s: &String) -> (r: bool)
    ensures
        r == all_whitespace(s@),
{
    let chars = str_to_chars(s.as_str());
    let lo = scan_ws_from(&chars, 0);
    proof {
        lemma_ws_from_bounds(s@, 0);
    }
    lo == chars.len()
}

} // verus!
