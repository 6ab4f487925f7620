//! Single-pass lexer for the bracketed grammar.
//!
//! The lexer is a character-level state machine.  String and number
//! tokens do not copy text: they record character offsets into the
//! source, which must outlive any use of the token for extraction.

use vstd::prelude::*;
use crate::text::char_is_alphabetic;
use crate::text::alphabetic;
use crate::text::lemma_ws_from_bounds;
use crate::text::lemma_ws_until_bounds;
use crate::text::scan_ws_from;
use crate::text::scan_ws_until;
use crate::text::str_to_chars;
use crate::text::subvec;
use crate::text::trim_spec;

verus! {

/// States of the lexer's character-level state machine.
#[derive(Copy, Clone)]
pub enum LexerState {
    Start,
    InString,
    InNumber,
    Finished,
}

/// One lexical unit of the bracketed grammar.
///
/// `StringSpan` and `Number` record character offsets into the source
/// text instead of copies: a string's span points at its two quotes, a
/// number's span covers the raw text up to (excluding) the delimiter
/// that ended it.
#[derive(Copy, Clone, PartialEq, Eq, Structural, Debug)]
pub enum JsToken {
    Open(char),
    Close(char),
    Colon,
    Comma,
    StringSpan { lbound: u32, ubound: u32 },
    Number { lbound: u32, ubound: u32 },
    Boolean(bool),
    Unknown,
}

impl JsToken {
    fn is_unknown(&self) -> (r: bool)
        ensures
            r == (*self is Unknown),
    {
        if let JsToken::Unknown = self {
            true
        } else {
            false
        }
    }
}

/// A lexical error; each variant records character offsets into the
/// source so that a caller can report the location.
#[derive(Copy, Clone, PartialEq, Eq, Structural, Debug)]
pub enum LexerError {
    /// An alphabetic run that is neither `true` nor `false` starts here.
    InvalidIdentifier(u32),
    /// The span of numeric text that the standard float grammar rejects.
    InvalidNumber { lbound: u32, ubound: u32 },
}

/// A decimal digit.
pub open spec fn is_digit(c: char) -> bool {
    '0' <= c && c <= '9'
}

/// First index at or after `i` whose character is not a decimal digit.
pub open spec fn digit_run_end(s: Seq<char>, i: int) -> int
    decreases s.len() - i,
    when 0 <= i <= s.len()
{
    if i < s.len() && is_digit(s[i]) {
        digit_run_end(s, i + 1)
    } else {
        i
    }
}

/// ASCII upper-case letters folded to lower case; everything else unchanged.
pub open spec fn lower_ascii(c: char) -> char {
    if 'A' <= c && c <= 'Z' {
        ((c as u32) + 32) as char
    } else {
        c
    }
}

/// The last three characters of `s` begin at `i` and spell the given word,
/// ASCII case-insensitively.
pub open spec fn keyword3(s: Seq<char>, i: int, c0: char, c1: char, c2: char) -> bool {
    s.len() - i == 3 && lower_ascii(s[i]) == c0 && lower_ascii(s[i + 1]) == c1 && lower_ascii(
        s[i + 2],
    ) == c2
}

/// The last eight characters of `s` begin at `i` and spell the given word,
/// ASCII case-insensitively.
pub open spec fn keyword8(
    s: Seq<char>,
    i: int,
    c0: char,
    c1: char,
    c2: char,
    c3: char,
    c4: char,
    c5: char,
    c6: char,
    c7: char,
) -> bool {
    s.len() - i == 8 && lower_ascii(s[i]) == c0 && lower_ascii(s[i + 1]) == c1 && lower_ascii(
        s[i + 2],
    ) == c2 && lower_ascii(s[i + 3]) == c3 && lower_ascii(s[i + 4]) == c4 && lower_ascii(s[i + 5])
        == c5 && lower_ascii(s[i + 6]) == c6 && lower_ascii(s[i + 7]) == c7
}

/// From `j` on, `s` is either exhausted or holds one exponent part
/// (`e`/`E`, an optional sign, one or more digits) that reaches the end.
pub open spec fn exp_ok(s: Seq<char>, j: int) -> bool
    recommends
        0 <= j <= s.len(),
{
    j == s.len() || ((s[j] == 'e' || s[j] == 'E') && {
        let k = if j + 1 < s.len() && (s[j + 1] == '+' || s[j + 1] == '-') {
            j + 2
        } else {
            j + 1
        };
        digit_run_end(s, k) > k && digit_run_end(s, k) == s.len()
    })
}

/// From `i` on, `s` spells a decimal number of the standard float
/// grammar: digits with an optional fraction, or a fraction alone, each
/// with an optional exponent, reaching the end of `s`.
pub open spec fn decimal_from(s: Seq<char>, i: int) -> bool
    recommends
        0 <= i <= s.len(),
{
    let d1 = digit_run_end(s, i);
    if d1 > i {
        if d1 < s.len() && s[d1] == '.' {
            exp_ok(s, digit_run_end(s, d1 + 1))
        } else {
            exp_ok(s, d1)
        }
    } else if i < s.len() && s[i] == '.' {
        let d2 = digit_run_end(s, i + 1);
        d2 > i + 1 && exp_ok(s, d2)
    } else {
        false
    }
}

/// `s` is a literal that the standard float parser accepts: an optional
/// sign followed by `inf`, `infinity`, `nan` (case-insensitively) or a
/// decimal number.
pub open spec fn is_float_literal(s: Seq<char>) -> bool {
    let i = if s.len() > 0 && (s[0] == '+' || s[0] == '-') {
        1int
    } else {
        0int
    };
    keyword3(s, i, 'i', 'n', 'f') || keyword8(s, i, 'i', 'n', 'f', 'i', 'n', 'i', 't', 'y')
        || keyword3(s, i, 'n', 'a', 'n') || decimal_from(s, i)
}

/// A token is well formed with respect to the source text it was lexed
/// from: bracket characters are the four structural ones, spans lie
/// inside the text with quotes or a delimiter where the scanner saw
/// them, numeric text obeys the float grammar, and `Unknown` never
/// appears.
pub open spec fn token_wf(tok: JsToken, text: Seq<char>) -> bool {
    match tok {
        JsToken::Open(c) => c == '[' || c == '{',
        JsToken::Close(c) => c == ']' || c == '}',
        JsToken::StringSpan { lbound, ubound } => lbound < ubound && (ubound as int) < text.len()
            && text[lbound as int] == '"' && text[ubound as int] == '"',
        JsToken::Number { lbound, ubound } => lbound < ubound && (ubound as int) < text.len() && (
        text[ubound as int] == ',' || text[ubound as int] == ']' || text[ubound as int] == '}')
            && is_float_literal(trim_spec(text.subrange(lbound as int, ubound as int))),
        JsToken::Unknown => false,
        _ => true,
    }
}

/// Every token of `toks` is well formed with respect to `text`.
pub open spec fn tokens_wf(toks: Seq<JsToken>, text: Seq<char>) -> bool {
    forall|i: int| 0 <= i < toks.len() ==> token_wf(#[trigger] toks[i], text)
}

/// The first three characters of `s` at or after `i` match the given
/// characters, as far as the text reaches.
pub open spec fn trunc3(s: Seq<char>, i: int, c0: char, c1: char, c2: char) -> bool {
    (i < s.len() ==> s[i] == c0) && (i + 1 < s.len() ==> s[i + 1] == c1) && (i + 2 < s.len()
        ==> s[i + 2] == c2)
}

/// The first four characters of `s` at or after `i` match the given
/// characters, as far as the text reaches.
pub open spec fn trunc4(s: Seq<char>, i: int, c0: char, c1: char, c2: char, c3: char) -> bool {
    (i < s.len() ==> s[i] == c0) && (i + 1 < s.len() ==> s[i + 1] == c1) && (i + 2 < s.len()
        ==> s[i + 2] == c2) && (i + 3 < s.len() ==> s[i + 3] == c3)
}

/// Case-insensitive comparison of `c` against the lower-case letter `lo`.
fn char_eq_ci(c: char, lo: char) -> (r: bool)
    requires
        'a' <= lo && lo <= 'z',
    ensures
        r == (lower_ascii(c) == lo),
{
    c == lo || (c as u32) + 32 == (lo as u32)
}

/// First index at or after `i` whose character is not a decimal digit.
fn scan_digit_end(v: &Vec<char>, i: usize) -> (r: usize)
    requires
        i <= v@.len(),
    ensures
        r as int == digit_run_end(v@, i as int),
        i <= r <= v@.len(),
{
    let mut k = i;
    while k < v.len() && v[k] >= '0' && v[k] <= '9'
        invariant
            i <= k <= v@.len(),
            digit_run_end(v@, i as int) == digit_run_end(v@, k as int),
        decreases v@.len() - k,
    {
        k = k + 1;
    }
    k
}

/// From `j` on, `v` is exhausted or holds one exponent part reaching the end.
fn check_exp(v: &Vec<char>, j: usize) -> (r: bool)
    requires
        j <= v@.len(),
    ensures
        r == exp_ok(v@, j as int),
{
    if j == v.len() {
        true
    } else if v[j] == 'e' || v[j] == 'E' {
        let k = if j + 1 < v.len() && (v[j + 1] == '+' || v[j + 1] == '-') {
            j + 2
        } else {
            j + 1
        };
        let e = scan_digit_end(v, k);
        e > k && e == v.len()
    } else {
        false
    }
}

/// Whether the whole of `v` is a literal that the standard float parser
/// accepts.
pub fn is_float_chars(v: &Vec<char>) -> (r: bool)
    ensures
        r == is_float_literal(v@),
{
    let n = v.len();
    let start: usize = if n > 0 && (v[0] == '+' || v[0] == '-') {
        1
    } else {
        0
    };
    let kw_inf = n - start == 3 && char_eq_ci(v[start], 'i') && char_eq_ci(v[start + 1], 'n')
        && char_eq_ci(v[start + 2], 'f');
    let kw_infinity = n - start == 8 && char_eq_ci(v[start], 'i') && char_eq_ci(v[start + 1], 'n')
        && char_eq_ci(v[start + 2], 'f') && char_eq_ci(v[start + 3], 'i') && char_eq_ci(
        v[start + 4],
        'n',
    ) && char_eq_ci(v[start + 5], 'i') && char_eq_ci(v[start + 6], 't') && char_eq_ci(
        v[start + 7],
        'y',
    );
    let kw_nan = n - start == 3 && char_eq_ci(v[start], 'n') && char_eq_ci(v[start + 1], 'a')
        && char_eq_ci(v[start + 2], 'n');
    let decimal = {
        let d1 = scan_digit_end(v, start);
        if d1 > start {
            if d1 < n && v[d1] == '.' {
                let d2 = scan_digit_end(v, d1 + 1);
                check_exp(v, d2)
            } else {
                check_exp(v, d1)
            }
        } else if start < n && v[start] == '.' {
            let d2 = scan_digit_end(v, start + 1);
            d2 > start + 1 && check_exp(v, d2)
        } else {
            false
        }
    };
    kw_inf || kw_infinity || kw_nan || decimal
}

/// Attaches one token in front of a scan result, keeping any error.
pub open spec fn lex_cons(t: JsToken, r: Result<Seq<JsToken>, LexerError>) -> Result<
    Seq<JsToken>,
    LexerError,
> {
    match r {
        Ok(ts) => Ok(seq![t] + ts),
        Err(e) => Err(e),
    }
}

/// Attaches already-emitted tokens in front of a scan result, keeping
/// any error.
pub open spec fn lex_total(pre: Seq<JsToken>, rest: Result<Seq<JsToken>, LexerError>) -> Result<
    Seq<JsToken>,
    LexerError,
> {
    match rest {
        Ok(ts) => Ok(pre + ts),
        Err(e) => Err(e),
    }
}

/// The single-character token recognized from `Start`, or `Unknown` for
/// characters that emit nothing.
pub open spec fn start_token(c: char) -> JsToken {
    match c {
        '{' => JsToken::Open('{'),
        '[' => JsToken::Open('['),
        '}' => JsToken::Close('}'),
        ']' => JsToken::Close(']'),
        ':' => JsToken::Colon,
        ',' => JsToken::Comma,
        _ => JsToken::Unknown,
    }
}

/// The whole behaviour of the lexer, one state transition per step:
/// the token stream that scanning `text` from position `i` in `state`
/// yields, or the first error met.  `acc` is the recorded start offset
/// of the string or number currently being scanned.
pub open spec fn lex_from(text: Seq<char>, i: int, state: LexerState, acc: int) -> Result<
    Seq<JsToken>,
    LexerError,
>
    decreases text.len() - i,
    when 0 <= i
{
    if i >= text.len() {
        Ok(Seq::empty())
    } else {
        match state {
            LexerState::Finished => Ok(Seq::empty()),
            LexerState::Start => {
                let c = text[i];
                if c == 't' || c == 'f' {
                    let looked = if trunc3(text, i + 1, 'r', 'u', 'e') {
                        Some(true)
                    } else if trunc4(text, i + 1, 'a', 'l', 's', 'e') {
                        Some(false)
                    } else {
                        None::<bool>
                    };
                    match looked {
                        Some(val) => {
                            let cnt = if c == 't' {
                                3int
                            } else {
                                4int
                            };
                            let ni = if text.len() - (i + 1) < cnt {
                                text.len() as int
                            } else {
                                i + 1 + cnt
                            };
                            lex_cons(
                                JsToken::Boolean(val),
                                lex_from(text, ni, LexerState::Start, 0),
                            )
                        },
                        None => Err(LexerError::InvalidIdentifier(i as u32)),
                    }
                } else if alphabetic(c) {
                    Err(LexerError::InvalidIdentifier(i as u32))
                } else if is_digit(c) || c == '.' || c == '+' || c == '-' {
                    lex_from(text, i + 1, LexerState::InNumber, i)
                } else if c == '"' {
                    lex_from(text, i + 1, LexerState::InString, i)
                } else if start_token(c) is Unknown {
                    lex_from(text, i + 1, LexerState::Start, 0)
                } else {
                    lex_cons(start_token(c), lex_from(text, i + 1, LexerState::Start, 0))
                }
            },
            LexerState::InString => {
                let c = text[i];
                if c == '\\' && i + 1 < text.len() && text[i + 1] == '"' {
                    lex_from(text, i + 2, LexerState::InString, acc)
                } else if c == '"' {
                    lex_cons(
                        JsToken::StringSpan { lbound: acc as u32, ubound: i as u32 },
                        lex_from(text, i + 1, LexerState::Start, 0),
                    )
                } else {
                    lex_from(text, i + 1, LexerState::InString, acc)
                }
            },
            LexerState::InNumber => {
                let c = text[i];
                if c == ',' || c == ']' || c == '}' {
                    if is_float_literal(trim_spec(text.subrange(acc, i))) {
                        let delim = if c == ',' {
                            JsToken::Comma
                        } else if c == ']' {
                            JsToken::Close(']')
                        } else {
                            JsToken::Close('}')
                        };
                        lex_cons(
                            JsToken::Number { lbound: acc as u32, ubound: i as u32 },
                            lex_cons(delim, lex_from(text, i + 1, LexerState::Start, 0)),
                        )
                    } else {
                        Err(LexerError::InvalidNumber { lbound: acc as u32, ubound: i as u32 })
                    }
                } else {
                    lex_from(text, i + 1, LexerState::InNumber, acc)
                }
            },
        }
    }
}

/// Emitting a token and then the rest of the scan is the same as
/// emitting the whole scan at once.
proof fn lemma_total_cons(pre: Seq<JsToken>, t: JsToken, r: Result<Seq<JsToken>, LexerError>)
    ensures
        lex_total(pre, lex_cons(t, r)) == lex_total(pre.push(t), r),
{
    match r {
        Ok(ts) => {
            assert(pre + (seq![t] + ts) =~= pre.push(t) + ts);
        },
        Err(_) => {},
    }
}

/// The single-pass lexer: it owns the token stream it produces.
pub struct JsLexer {
    pub token_stream: Vec<JsToken>,
    pub state: LexerState,
}

impl JsLexer {
    /// A fresh lexer with an empty token stream.
    pub fn new() -> (l: Self)
        ensures
            l.token_stream@.len() == 0,
            l.state is Start,
    {
        JsLexer { token_stream: Vec::new(), state: LexerState::Start }
    }

    /// The token stream produced by `lex`.
    pub fn get_tok_stream(&self) -> (r: &Vec<JsToken>)
        ensures
            *r == self.token_stream,
    {
        &self.token_stream
    }

    /// Whether the remaining text at `start` spells (a truncated prefix
    /// of) `true` or `false`, by direct lookahead comparison.
    fn is_boolean(chars: &Vec<char>, start: usize) -> (r: Option<bool>)
        requires
            start <= chars@.len(),
            chars@.len() < 0xFFFF_FFFF,
        ensures
            r == (if trunc3(chars@, start as int, 'r', 'u', 'e') {
                Some(true)
            } else if trunc4(chars@, start as int, 'a', 'l', 's', 'e') {
                Some(false)
            } else {
                None::<bool>
            }),
    {
        let n = chars.len();
        let rem = n - start;
        let true_detected = (rem < 1 || chars[start] == 'r') && (rem < 2 || chars[start + 1] == 'u')
            && (rem < 3 || chars[start + 2] == 'e');
        let false_detected = (rem < 1 || chars[start] == 'a') && (rem < 2 || chars[start + 1]
            == 'l') && (rem < 3 || chars[start + 2] == 's') && (rem < 4 || chars[start + 3] == 'e');
        if true_detected {
            Some(true)
        } else if false_detected {
            Some(false)
        } else {
            None
        }
    }

    /// Scans `raw_text` into a flat token stream, aborting on the first
    /// grammar violation.
    ///
    /// The result and the emitted stream are exactly what the
    /// specification-level scan `lex_from` yields on the text; in
    /// particular, every token is well formed with respect to the
    /// text, and an unterminated string or number at end of input is
    /// dropped without error; that permissiveness is part of the
    /// design.
    pub fn lex(&mut self, raw_text: &String) -> (r: Result<(), LexerError>)
        requires
            old(self).token_stream@.len() == 0,
            old(self).state is Start,
            raw_text@.len() < 0xFFFF_FFFF,
        ensures
            ({
                let scan = lex_from(raw_text@, 0, LexerState::Start, 0);
                match scan {
                    Ok(ts) => r is Ok && final(self).token_stream@ == ts,
                    Err(e) => r matches Err(e2) && e2 == e,
                }
            }),
            r is Ok ==> tokens_wf(final(self).token_stream@, raw_text@),
            r is Ok ==> final(self).token_stream@.len() <= raw_text@.len(),
            r matches Err(LexerError::InvalidIdentifier(k)) ==> (k as int) < raw_text@.len() && (
            alphabetic(raw_text@[k as int]) || raw_text@[k as int] == 't' || raw_text@[k as int]
                == 'f'),
            r matches Err(LexerError::InvalidNumber { lbound, ubound }) ==> lbound < ubound && (
            ubound as int) < raw_text@.len() && !is_float_literal(
                trim_spec(raw_text@.subrange(lbound as int, ubound as int)),
            ),
    {
        let chars = str_to_chars(raw_text.as_str());
        let n = chars.len();
        let mut accum: Option<usize> = None;
        let mut i: usize = 0;

        loop
            invariant
                chars@ == raw_text@,
                n == chars@.len(),
                n < 0xFFFF_FFFF,
                i <= n,
                tokens_wf(self.token_stream@, raw_text@),
                self.token_stream@.len() + (if self.state is InNumber {
                    1int
                } else if self.state is InString {
                    1int
                } else {
                    0int
                }) <= i,
                (self.state is InString || self.state is InNumber) ==> (accum matches Some(l)
                    && l < i),
                self.state is InString ==> (accum matches Some(l) && chars@[l as int] == '"'),
                self.state is Start ==> accum is None,
                lex_from(chars@, 0, LexerState::Start, 0) == lex_total(
                    self.token_stream@,
                    lex_from(
                        chars@,
                        i as int,
                        self.state,
                        match accum {
                            Some(l) => l as int,
                            None => 0,
                        },
                    ),
                ),
            ensures
                lex_from(chars@, 0, LexerState::Start, 0) == Ok::<Seq<JsToken>, LexerError>(
                    self.token_stream@,
                ),
                tokens_wf(self.token_stream@, raw_text@),
                self.token_stream@.len() <= raw_text@.len(),
            decreases 2 * (n - i) + (if self.state is Finished {
                0int
            } else {
                1int
            }),
        {
            let ghost pre_stream = self.token_stream@;
            let ghost pre_i = i as int;
            match self.state {
                LexerState::Start => {
                    if i < n {
                        let k = i;
                        let c = chars[i];
                        i = i + 1;
                        let token = match c {
                            '{' => JsToken::Open('{'),
                            '[' => JsToken::Open('['),
                            '}' => JsToken::Close('}'),
                            ']' => JsToken::Close(']'),
                            ':' => JsToken::Colon,
                            ',' => JsToken::Comma,
                            't' | 'f' => {
                                match Self::is_boolean(&chars, i) {
                                    Some(val) => {
                                        let ignore_count: usize = if c == 't' {
                                            3
                                        } else {
                                            4
                                        };
                                        i = if n - i < ignore_count {
                                            n
                                        } else {
                                            i + ignore_count
                                        };
                                        JsToken::Boolean(val)
                                    },
                                    None => {
                                        return Err(LexerError::InvalidIdentifier(k as u32));
                                    },
                                }
                            },
                            '0' | '1' | '2' | '3' | '4' | '5' | '6' | '7' | '8' | '9' | '.' | '+'
                                | '-' => {
                                accum = Some(k);
                                self.state = LexerState::InNumber;
                                JsToken::Unknown
                            },
                            '"' => {
                                accum = Some(k);
                                self.state = LexerState::InString;
                                JsToken::Unknown
                            },
                            _ => JsToken::Unknown,
                        };
                        if token.is_unknown() == false {
                            self.token_stream.push(token);
                        }
                        if char_is_alphabetic(c) && c != 't' && c != 'f' {
                            return Err(LexerError::InvalidIdentifier(k as u32));
                        }
                        proof {
                            let t = chars@;
                            if c == 't' || c == 'f' {
                                lemma_total_cons(
                                    pre_stream,
                                    token,
                                    lex_from(t, i as int, LexerState::Start, 0),
                                );
                            } else if is_digit(c) || c == '.' || c == '+' || c == '-' {
                                assert(lex_from(t, pre_i, LexerState::Start, 0) == lex_from(
                                    t,
                                    pre_i + 1,
                                    LexerState::InNumber,
                                    pre_i,
                                ));
                            } else if c == '"' {
                                assert(lex_from(t, pre_i, LexerState::Start, 0) == lex_from(
                                    t,
                                    pre_i + 1,
                                    LexerState::InString,
                                    pre_i,
                                ));
                            } else if start_token(c) is Unknown {
                                assert(lex_from(t, pre_i, LexerState::Start, 0) == lex_from(
                                    t,
                                    pre_i + 1,
                                    LexerState::Start,
                                    0,
                                ));
                            } else {
                                lemma_total_cons(
                                    pre_stream,
                                    start_token(c),
                                    lex_from(t, pre_i + 1, LexerState::Start, 0),
                                );
                            }
                        }
                    } else {
                        self.state = LexerState::Finished;
                    }
                },
                LexerState::InString => {
                    if i < n {
                        let k = i;
                        let c = chars[i];
                        i = i + 1;
                        if c == '\\' && i < n && chars[i] == '"' {
                            i = i + 1;
                        } else if c == '"' {
                            let lbound = match accum {
                                Some(l) => l,
                                None => 0,
                            };
                            let tok = JsToken::StringSpan {
                                lbound: lbound as u32,
                                ubound: k as u32,
                            };
                            self.token_stream.push(tok);
                            accum = None;
                            self.state = LexerState::Start;
                            proof {
                                lemma_total_cons(
                                    pre_stream,
                                    tok,
                                    lex_from(chars@, i as int, LexerState::Start, 0),
                                );
                            }
                        }
                    } else {
                        self.state = LexerState::Finished;
                    }
                },
                LexerState::InNumber => {
                    if i < n {
                        let ubound = i;
                        let c = chars[i];
                        i = i + 1;
                        if c == ',' || c == ']' || c == '}' {
                            let lbound = match accum {
                                Some(l) => l,
                                None => 0,
                            };
                            let sv = subvec(&chars, lbound, ubound);
                            let lo = scan_ws_from(&sv, 0);
                            let hi = scan_ws_until(&sv, sv.len());
                            proof {
                                lemma_ws_from_bounds(sv@, 0);
                                lemma_ws_until_bounds(sv@, sv@.len() as int);
                            }
                            let tv = if lo < hi {
                                subvec(&sv, lo, hi)
                            } else {
                                Vec::new()
                            };
                            proof {
                                assert(tv@ =~= trim_spec(sv@));
                            }
                            if is_float_chars(&tv) {
                                let num_tok = JsToken::Number {
                                    lbound: lbound as u32,
                                    ubound: ubound as u32,
                                };
                                self.token_stream.push(num_tok);
                                let tok = match c {
                                    ',' => JsToken::Comma,
                                    ']' => JsToken::Close(']'),
                                    _ => JsToken::Close('}'),
                                };
                                self.token_stream.push(tok);
                                self.state = LexerState::Start;
                                accum = None;
                                proof {
                                    lemma_total_cons(
                                        pre_stream.push(num_tok),
                                        tok,
                                        lex_from(chars@, i as int, LexerState::Start, 0),
                                    );
                                    lemma_total_cons(
                                        pre_stream,
                                        num_tok,
                                        lex_cons(
                                            tok,
                                            lex_from(chars@, i as int, LexerState::Start, 0),
                                        ),
                                    );
                                }
                            } else {
                                return Err(
                                    LexerError::InvalidNumber {
                                        lbound: lbound as u32,
                                        ubound: ubound as u32,
                                    },
                                );
                            }
                        }
                    } else {
                        self.state = LexerState::Finished;
                    }
                },
                LexerState::Finished => {
                    proof {
                        let scan = lex_from(chars@, 0, LexerState::Start, 0);
                        assert(self.token_stream@ + Seq::<JsToken>::empty() =~= self.token_stream@);
                        assert(scan == Ok::<Seq<JsToken>, LexerError>(self.token_stream@));
                    }
                    break ;
                },
            }
        }
        Ok(())
    }
}

} // verus!
