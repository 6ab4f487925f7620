//! Single-pass lexer for the tagged grammar.
//!
//! The scanner is a state machine whose states reuse the token-kind
//! enum; tag names, attribute pairs and raw content are captured as
//! owned text.  Runs of whitespace between tags are dropped rather
//! than materialized as tokens.

use vstd::prelude::*;
use crate::text::all_whitespace;
use crate::text::alphabetic;
use crate::text::char_is_alphabetic;
use crate::text::chars_to_string;
use crate::text::str_eq;
use crate::text::str_to_chars;
use crate::text::subvec;
use crate::xml::XMLErrorKind;

verus! {

/// Token kinds of the tagged grammar; the `Aux` kinds never appear in
/// lexer output, they only serve as scanner states.
#[derive(Copy, Clone, PartialEq, Eq, Structural, Debug)]
pub enum XmlTokenKind {
    /// A tag like `<foo>`.
    OpenTag,
    /// A tag like `</foo>`.
    CloseTag,
    /// A tag like `<foo/>`.
    EmptyTag,
    /// Raw text between tags.
    ContentTag,
    AuxUnknown,
    AuxOpenAttribOpen,
    AuxOpenAttribClose,
    AuxComment,
}

impl XmlTokenKind {
    pub fn is_emptytag(&self) -> (r: bool)
        ensures
            r == (*self is EmptyTag),
    {
        if let XmlTokenKind::EmptyTag = self {
            true
        } else {
            false
        }
    }
}

/// The attribute pairs of a token, as character sequences.
pub open spec fn attribs_view(attribs: Seq<(String, String)>) -> Seq<(Seq<char>, Seq<char>)> {
    Seq::new(attribs.len(), |i: int| (attribs[i].0@, attribs[i].1@))
}

/// The mathematical value of a token: its kind, its text, and its
/// ordered attribute pairs.
#[verifier::ext_equal]
pub struct XmlTokenView {
    pub kind: XmlTokenKind,
    pub content: Seq<char>,
    pub attribs: Seq<(Seq<char>, Seq<char>)>,
}

/// One lexical unit of the tagged grammar: a kind, the owned tag name
/// or content text, and the ordered attribute pairs (keys need not be
/// unique; lookup returns the first match).
pub struct XmlToken {
    pub token_kind: XmlTokenKind,
    pub content: String,
    pub attribs: Vec<(String, String)>,
}

impl View for XmlToken {
    type V = XmlTokenView;

    open spec fn view(&self) -> XmlTokenView {
        XmlTokenView {
            kind: self.token_kind,
            content: self.content@,
            attribs: attribs_view(self.attribs@),
        }
    }
}

/// The value bound to `key` by the first pair of `attribs` whose key
/// matches, if any; lookup is a linear scan and the first match wins.
pub open spec fn attrib_lookup_from(
    attribs: Seq<(Seq<char>, Seq<char>)>,
    key: Seq<char>,
    i: int,
) -> Option<Seq<char>>
    decreases attribs.len() - i,
    when 0 <= i <= attribs.len()
{
    if i >= attribs.len() {
        None
    } else if attribs[i].0 == key {
        Some(attribs[i].1)
    } else {
        attrib_lookup_from(attribs, key, i + 1)
    }
}

/// First-match attribute lookup over a whole attribute list.
pub open spec fn attrib_lookup(attribs: Seq<(Seq<char>, Seq<char>)>, key: Seq<char>) -> Option<
    Seq<char>,
> {
    attrib_lookup_from(attribs, key, 0)
}

impl XmlToken {
    pub fn new(token_kind: XmlTokenKind, content: String) -> (t: XmlToken)
        ensures
            t@.kind == token_kind,
            t@.content == content@,
            t@.attribs.len() == 0,
    {
        let t = XmlToken { token_kind, content, attribs: Vec::new() };
        proof {
            assert(t@.attribs =~= Seq::<(Seq<char>, Seq<char>)>::empty());
        }
        t
    }

    /// Searches the attribute list for `key` and returns the first
    /// associated value.
    pub fn get_attrib(&self, key: &str) -> (r: Option<&String>)
        ensures
            match attrib_lookup(self@.attribs, key@) {
                Some(val) => r matches Some(v) && v@ == val,
                None => r is None,
            },
    {
        let mut i: usize = 0;
        while i < self.attribs.len()
            invariant
                i <= self.attribs@.len(),
                attrib_lookup(self@.attribs, key@) == attrib_lookup_from(
                    self@.attribs,
                    key@,
                    i as int,
                ),
            decreases self.attribs@.len() - i,
        {
            if str_eq(self.attribs[i].0.as_str(), key) {
                return Some(&self.attribs[i].1);
            }
            i = i + 1;
        }
        None
    }

    /// Searches the attribute list for `key` and returns the index of
    /// the first matching pair, through which the value can be changed.
    pub fn get_attrib_mut(&mut self, attrib: &str) -> (r: Option<usize>)
        ensures
            *final(self) == *old(self),
            match attrib_lookup(old(self)@.attribs, attrib@) {
                Some(val) => r matches Some(i) && i < old(self).attribs@.len() && old(
                    self,
                ).attribs@[i as int].1@ == val,
                None => r is None,
            },
    {
        let mut i: usize = 0;
        while i < self.attribs.len()
            invariant
                i <= self.attribs@.len(),
                attrib_lookup(self@.attribs, attrib@) == attrib_lookup_from(
                    self@.attribs,
                    attrib@,
                    i as int,
                ),
            decreases self.attribs@.len() - i,
        {
            if str_eq(self.attribs[i].0.as_str(), attrib) {
                return Some(i);
            }
            i = i + 1;
        }
        None
    }

    /// A deep copy: same kind, same text, same attribute pairs.
    pub fn duplicate(&self) -> (r: XmlToken)
        ensures
            r.token_kind == self.token_kind,
            r.content == self.content,
            r.attribs@ == self.attribs@,
            r@ == self@,
    {
        let mut attribs: Vec<(String, String)> = Vec::new();
        let mut i: usize = 0;
        while i < self.attribs.len()
            invariant
                i <= self.attribs@.len(),
                attribs@ == self.attribs@.subrange(0, i as int),
            decreases self.attribs@.len() - i,
        {
            let k = self.attribs[i].0.clone();
            let v = self.attribs[i].1.clone();
            attribs.push((k, v));
            i = i + 1;
            proof {
                assert(attribs@ =~= self.attribs@.subrange(0, i as int));
            }
        }
        proof {
            assert(attribs@ =~= self.attribs@);
        }
        let r = XmlToken { token_kind: self.token_kind, content: self.content.clone(), attribs };
        proof {
            assert(r@ =~= self@);
        }
        r
    }
}

impl Default for XmlToken {
    fn default() -> (t: XmlToken)
        ensures
            t@.kind is AuxUnknown,
            t@.content.len() == 0,
            t@.attribs.len() == 0,
    {
        let t = XmlToken {
            token_kind: XmlTokenKind::AuxUnknown,
            content: String::new(),
            attribs: Vec::new(),
        };
        proof {
            assert(t@.attribs =~= Seq::<(Seq<char>, Seq<char>)>::empty());
        }
        t
    }
}

/// Every token the lexer emits has one of the four output kinds and
/// carries text that is neither empty nor all whitespace.
pub open spec fn lexed_token_wf(t: XmlTokenView) -> bool {
    &&& (t.kind is OpenTag || t.kind is CloseTag || t.kind is EmptyTag || t.kind is ContentTag)
    &&& t.content.len() > 0
    &&& !all_whitespace(t.content)
}

/// Every token of the stream is a well-formed lexer output token.
pub open spec fn lexed_tokens_wf(toks: Seq<XmlToken>) -> bool {
    forall|i: int| 0 <= i < toks.len() ==> lexed_token_wf((#[trigger] toks[i])@)
}

/// The views of a token sequence, in order.
pub open spec fn tokens_views(toks: Seq<XmlToken>) -> Seq<XmlTokenView> {
    Seq::new(toks.len(), |i: int| toks[i]@)
}

/// Spec-level token emission: blank text is discarded, anything else
/// becomes a token of the given kind with no attributes yet.
pub open spec fn emit(done: Seq<XmlTokenView>, kind: XmlTokenKind, accum: Seq<char>) -> Seq<
    XmlTokenView,
> {
    if all_whitespace(accum) {
        done
    } else {
        done.push(XmlTokenView { kind, content: accum, attribs: Seq::empty() })
    }
}

/// Spec-level retagging of the most recently emitted token.
pub open spec fn retag_last(done: Seq<XmlTokenView>, kind: XmlTokenKind) -> Seq<XmlTokenView> {
    if done.len() == 0 {
        done
    } else {
        let m = done.len() - 1;
        done.update(m, XmlTokenView { kind, content: done[m].content, attribs: done[m].attribs })
    }
}

/// Spec-level attachment of one attribute pair to the most recently
/// emitted token.
pub open spec fn attach_attrib(done: Seq<XmlTokenView>, key: Seq<char>, val: Seq<char>) -> Seq<
    XmlTokenView,
> {
    if done.len() == 0 {
        done
    } else {
        let m = done.len() - 1;
        done.update(
            m,
            XmlTokenView {
                kind: done[m].kind,
                content: done[m].content,
                attribs: done[m].attribs.push((key, val)),
            },
        )
    }
}

/// The whole behaviour of the tagged-grammar scanner, one state
/// transition per step: the token views that scanning `text` from
/// position `i` yields, or the first error met.  `accum` is the text
/// gathered so far, `key` the pending attribute key, `done` the tokens
/// already emitted.
pub open spec fn xml_lex_from(
    text: Seq<char>,
    i: int,
    state: XmlTokenKind,
    accum: Seq<char>,
    key: Seq<char>,
    done: Seq<XmlTokenView>,
) -> Result<Seq<XmlTokenView>, XMLErrorKind>
    decreases text.len() - i,
    when 0 <= i
{
    if i >= text.len() {
        Ok(done)
    } else {
        let c = text[i];
        match state {
            XmlTokenKind::AuxUnknown => xml_lex_from(
                text,
                i + 1,
                if c == '<' {
                    XmlTokenKind::OpenTag
                } else {
                    XmlTokenKind::AuxUnknown
                },
                accum,
                key,
                done,
            ),
            XmlTokenKind::OpenTag => {
                if c == '>' {
                    xml_lex_from(
                        text,
                        i + 1,
                        XmlTokenKind::ContentTag,
                        Seq::empty(),
                        key,
                        emit(done, XmlTokenKind::OpenTag, accum),
                    )
                } else if c == '/' && i + 1 < text.len() && text[i + 1] == '>' {
                    xml_lex_from(
                        text,
                        i + 2,
                        XmlTokenKind::ContentTag,
                        Seq::empty(),
                        key,
                        emit(done, XmlTokenKind::EmptyTag, accum),
                    )
                } else if c == ' ' && i + 1 < text.len() {
                    if alphabetic(text[i + 1]) {
                        xml_lex_from(
                            text,
                            i + 1,
                            XmlTokenKind::AuxOpenAttribOpen,
                            Seq::empty(),
                            key,
                            emit(done, XmlTokenKind::OpenTag, accum),
                        )
                    } else {
                        // a space whose follower starts no attribute is dropped
                        xml_lex_from(text, i + 1, XmlTokenKind::OpenTag, accum, key, done)
                    }
                } else if accum.len() == 0 && !alphabetic(c) {
                    xml_lex_from(text, i + 1, XmlTokenKind::OpenTag, accum, key, done)
                } else {
                    xml_lex_from(text, i + 1, XmlTokenKind::OpenTag, accum.push(c), key, done)
                }
            },
            XmlTokenKind::AuxOpenAttribOpen => {
                if c == '=' {
                    if i + 1 < text.len() && text[i + 1] == '"' {
                        xml_lex_from(
                            text,
                            i + 2,
                            XmlTokenKind::AuxOpenAttribClose,
                            Seq::empty(),
                            accum,
                            done,
                        )
                    } else {
                        Err(XMLErrorKind::TokenizerErr("expected: '\"' right after '='"))
                    }
                } else if c == '>' {
                    xml_lex_from(text, i + 1, XmlTokenKind::ContentTag, accum, key, done)
                } else if c == '/' && i + 1 < text.len() && text[i + 1] == '>' {
                    xml_lex_from(
                        text,
                        i + 2,
                        XmlTokenKind::ContentTag,
                        accum,
                        key,
                        retag_last(done, XmlTokenKind::EmptyTag),
                    )
                } else {
                    xml_lex_from(
                        text,
                        i + 1,
                        XmlTokenKind::AuxOpenAttribOpen,
                        accum.push(c),
                        key,
                        done,
                    )
                }
            },
            XmlTokenKind::AuxOpenAttribClose => {
                if c == '"' {
                    xml_lex_from(
                        text,
                        i + 1,
                        XmlTokenKind::AuxOpenAttribOpen,
                        Seq::empty(),
                        key,
                        attach_attrib(done, key, accum),
                    )
                } else {
                    xml_lex_from(
                        text,
                        i + 1,
                        XmlTokenKind::AuxOpenAttribClose,
                        accum.push(c),
                        key,
                        done,
                    )
                }
            },
            XmlTokenKind::CloseTag => {
                if c == '>' {
                    xml_lex_from(
                        text,
                        i + 1,
                        XmlTokenKind::ContentTag,
                        Seq::empty(),
                        key,
                        emit(done, XmlTokenKind::CloseTag, accum),
                    )
                } else {
                    xml_lex_from(text, i + 1, XmlTokenKind::CloseTag, accum.push(c), key, done)
                }
            },
            XmlTokenKind::ContentTag => {
                if c == '<' {
                    if i + 1 < text.len() && text[i + 1] == '/' {
                        xml_lex_from(
                            text,
                            i + 2,
                            XmlTokenKind::CloseTag,
                            Seq::empty(),
                            key,
                            emit(done, XmlTokenKind::ContentTag, accum),
                        )
                    } else if i + 1 < text.len() && text[i + 1] == '!' {
                        xml_lex_from(
                            text,
                            i + 2,
                            XmlTokenKind::AuxComment,
                            Seq::empty(),
                            key,
                            emit(done, XmlTokenKind::ContentTag, accum),
                        )
                    } else {
                        xml_lex_from(
                            text,
                            i + 1,
                            XmlTokenKind::OpenTag,
                            Seq::empty(),
                            key,
                            emit(done, XmlTokenKind::ContentTag, accum),
                        )
                    }
                } else {
                    xml_lex_from(text, i + 1, XmlTokenKind::ContentTag, accum.push(c), key, done)
                }
            },
            XmlTokenKind::AuxComment => {
                if c == '-' && i + 1 < text.len() && text[i + 1] == '>' {
                    xml_lex_from(text, i + 2, XmlTokenKind::ContentTag, accum, key, done)
                } else {
                    xml_lex_from(text, i + 1, XmlTokenKind::AuxComment, accum, key, done)
                }
            },
            _ => xml_lex_from(text, i + 1, state, accum, key, done),
        }
    }
}

/// The tagged-grammar lexer: it owns the token stream it produces.
pub struct XmlLexer {
    pub tokens: Vec<XmlToken>,
}

impl XmlLexer {
    pub fn new() -> (l: XmlLexer)
        ensures
            l.tokens@.len() == 0,
    {
        XmlLexer { tokens: Vec::new() }
    }

    /// Emits a token of the given kind holding the accumulated text,
    /// unless that text is empty or all whitespace, in which case the
    /// accumulator is simply discarded.
    fn push_token(&mut self, token_kind: XmlTokenKind, accum: &mut Vec<char>)
        ensures
            final(accum)@ == Seq::<char>::empty(),
            all_whitespace(old(accum)@) ==> final(self).tokens@ == old(self).tokens@,
            !all_whitespace(old(accum)@) ==> {
                let m = old(self).tokens@.len() as int;
                &&& final(self).tokens@.len() == m + 1
                &&& (forall|i: int| 0 <= i < m ==> final(self).tokens@[i] == old(self).tokens@[i])
                &&& final(self).tokens@[m]@.kind == token_kind
                &&& final(self).tokens@[m]@.content == old(accum)@
                &&& final(self).tokens@[m]@.attribs.len() == 0
            },
    {
        let empty = {
            let lo = crate::text::scan_ws_from(accum, 0);
            proof {
                crate::text::lemma_ws_from_bounds(accum@, 0);
            }
            lo == accum.len()
        };
        if empty {
            *accum = Vec::new();
            return ;
        }
        let content = chars_to_string(accum);
        let token = XmlToken::new(token_kind, content);
        self.tokens.push(token);
        *accum = Vec::new();
    }

    /// Retroactively changes the kind of the most recently pushed
    /// token; with no token yet, nothing changes.
    fn set_last_kind(&mut self, token_kind: XmlTokenKind)
        ensures
            old(self).tokens@.len() == 0 ==> final(self).tokens@ == old(self).tokens@,
            old(self).tokens@.len() > 0 ==> {
                let m = old(self).tokens@.len() - 1;
                &&& final(self).tokens@.len() == old(self).tokens@.len()
                &&& (forall|i: int| 0 <= i < m ==> final(self).tokens@[i] == old(self).tokens@[i])
                &&& final(self).tokens@[m]@.kind == token_kind
                &&& final(self).tokens@[m]@.content == old(self).tokens@[m]@.content
                &&& final(self).tokens@[m]@.attribs == old(self).tokens@[m]@.attribs
            },
    {
        match self.tokens.pop() {
            Some(tk) => {
                let mut tk = tk;
                tk.token_kind = token_kind;
                self.tokens.push(tk);
            },
            None => {},
        }
    }

    /// Appends one attribute pair to the most recently pushed token;
    /// with no token yet, the pair is discarded.
    fn push_attrib_on_last(&mut self, key: String, val: String)
        ensures
            old(self).tokens@.len() == 0 ==> final(self).tokens@ == old(self).tokens@,
            old(self).tokens@.len() > 0 ==> {
                let m = old(self).tokens@.len() - 1;
                &&& final(self).tokens@.len() == old(self).tokens@.len()
                &&& (forall|i: int| 0 <= i < m ==> final(self).tokens@[i] == old(self).tokens@[i])
                &&& final(self).tokens@[m]@.kind == old(self).tokens@[m]@.kind
                &&& final(self).tokens@[m]@.content == old(self).tokens@[m]@.content
                &&& final(self).tokens@[m]@.attribs == old(self).tokens@[m]@.attribs.push(
                    (key@, val@),
                )
            },
    {
        let ghost kview = key@;
        let ghost vview = val@;
        match self.tokens.pop() {
            Some(tk) => {
                let mut tk = tk;
                tk.attribs.push((key, val));
                self.tokens.push(tk);
                proof {
                    assert(self.tokens@[old(self).tokens@.len() - 1]@.attribs =~= old(
                        self,
                    ).tokens@[old(self).tokens@.len() - 1]@.attribs.push((kview, vview)));
                }
            },
            None => {},
        }
    }

    /// Tokenizes raw tagged text with a character-level state machine.
    ///
    /// The result and the emitted tokens are exactly what the
    /// specification-level scan `xml_lex_from` yields on the text.  On
    /// success every emitted token has one of the four output kinds and
    /// non-blank text.  The only errors are malformed attribute syntax;
    /// all other malformed input is tolerated by design.
    pub fn lex(&mut self, src: &str) -> (r: Result<(), XMLErrorKind>)
        requires
            old(self).tokens@.len() == 0,
            src@.len() < 0xFFFF_FFFF,
        ensures
            ({
                let scan = xml_lex_from(
                    src@,
                    0,
                    XmlTokenKind::AuxUnknown,
                    Seq::empty(),
                    Seq::empty(),
                    Seq::empty(),
                );
                match scan {
                    Ok(ts) => r is Ok && tokens_views(final(self).tokens@) == ts,
                    Err(e) => r matches Err(e2) && e2 == e,
                }
            }),
            r is Ok ==> lexed_tokens_wf(final(self).tokens@),
            r is Ok ==> final(self).tokens@.len() <= src@.len(),
    {
        let chars = str_to_chars(src);
        let n = chars.len();
        let mut state = XmlTokenKind::AuxUnknown;
        let mut accum: Vec<char> = Vec::new();
        let mut current_key: Vec<char> = Vec::new();
        let mut i: usize = 0;

        proof {
            assert(tokens_views(self.tokens@) =~= Seq::<XmlTokenView>::empty());
        }
        while i < n
            invariant
                chars@ == src@,
                n == chars@.len(),
                i <= n,
                lexed_tokens_wf(self.tokens@),
                self.tokens@.len() <= i,
                xml_lex_from(
                    chars@,
                    0,
                    XmlTokenKind::AuxUnknown,
                    Seq::empty(),
                    Seq::empty(),
                    Seq::empty(),
                ) == xml_lex_from(
                    chars@,
                    i as int,
                    state,
                    accum@,
                    current_key@,
                    tokens_views(self.tokens@),
                ),
            decreases n - i,
        {
            let ghost pre_i = i as int;
            let ghost pre_state = state;
            let ghost pre_accum = accum@;
            let ghost pre_key = current_key@;
            let ghost pre_done = tokens_views(self.tokens@);
            let c = chars[i];
            i = i + 1;
            match state {
                XmlTokenKind::AuxUnknown => {
                    if c == '<' {
                        state = XmlTokenKind::OpenTag;
                    }
                },
                XmlTokenKind::OpenTag => {
                    if c == '>' {
                        state = XmlTokenKind::ContentTag;
                        self.push_token(XmlTokenKind::OpenTag, &mut accum);
                        proof {
                            assert(tokens_views(self.tokens@) =~~= emit(
                                pre_done,
                                XmlTokenKind::OpenTag,
                                pre_accum,
                            ));
                        }
                    } else if c == '/' && i < n && chars[i] == '>' {
                        state = XmlTokenKind::ContentTag;
                        i = i + 1;
                        self.push_token(XmlTokenKind::EmptyTag, &mut accum);
                        proof {
                            assert(tokens_views(self.tokens@) =~~= emit(
                                pre_done,
                                XmlTokenKind::EmptyTag,
                                pre_accum,
                            ));
                        }
                    } else if c == ' ' && i < n {
                        if char_is_alphabetic(chars[i]) {
                            state = XmlTokenKind::AuxOpenAttribOpen;
                            // label the token "open" by default; attribute
                            // scanning may later flip it to "empty"
                            self.push_token(XmlTokenKind::OpenTag, &mut accum);
                            proof {
                                assert(tokens_views(self.tokens@) =~~= emit(
                                    pre_done,
                                    XmlTokenKind::OpenTag,
                                    pre_accum,
                                ));
                            }
                        }
                        // otherwise the space is dropped: it starts no attribute
                    } else {
                        let adding_first_character = accum.len() == 0;
                        if adding_first_character {
                            if char_is_alphabetic(c) {
                                accum.push(c);
                            }
                        } else {
                            accum.push(c);
                        }
                    }
                },
                XmlTokenKind::AuxOpenAttribOpen => {
                    if c == '=' {
                        current_key = subvec(&accum, 0, accum.len());
                        proof {
                            assert(current_key@ =~= pre_accum);
                        }
                        accum = Vec::new();
                        if i < n && chars[i] == '"' {
                            state = XmlTokenKind::AuxOpenAttribClose;
                            i = i + 1;
                        } else {
                            return Err(XMLErrorKind::TokenizerErr("expected: '\"' right after '='"));
                        }
                    } else if c == '>' {
                        state = XmlTokenKind::ContentTag;
                    } else if c == '/' && i < n && chars[i] == '>' {
                        state = XmlTokenKind::ContentTag;
                        i = i + 1;
                        // the already-pushed open token is really an empty tag
                        self.set_last_kind(XmlTokenKind::EmptyTag);
                        proof {
                            assert(tokens_views(self.tokens@) =~~= retag_last(
                                pre_done,
                                XmlTokenKind::EmptyTag,
                            ));
                        }
                    } else {
                        accum.push(c);
                    }
                },
                XmlTokenKind::AuxOpenAttribClose => {
                    if c == '"' {
                        let key = chars_to_string(&current_key);
                        let val = chars_to_string(&accum);
                        self.push_attrib_on_last(key, val);
                        accum = Vec::new();
                        state = XmlTokenKind::AuxOpenAttribOpen;
                        proof {
                            assert(tokens_views(self.tokens@) =~~= attach_attrib(
                                pre_done,
                                pre_key,
                                pre_accum,
                            ));
                        }
                    } else {
                        accum.push(c);
                    }
                },
                XmlTokenKind::CloseTag => {
                    if c == '>' {
                        state = XmlTokenKind::ContentTag;
                        self.push_token(XmlTokenKind::CloseTag, &mut accum);
                        proof {
                            assert(tokens_views(self.tokens@) =~~= emit(
                                pre_done,
                                XmlTokenKind::CloseTag,
                                pre_accum,
                            ));
                        }
                    } else {
                        accum.push(c);
                    }
                },
                XmlTokenKind::ContentTag => {
                    if c == '<' {
                        if i < n && chars[i] == '/' {
                            i = i + 1;
                            state = XmlTokenKind::CloseTag;
                        } else if i < n && chars[i] == '!' {
                            i = i + 1;
                            state = XmlTokenKind::AuxComment;
                        } else {
                            state = XmlTokenKind::OpenTag;
                        }
                        self.push_token(XmlTokenKind::ContentTag, &mut accum);
                        proof {
                            assert(tokens_views(self.tokens@) =~~= emit(
                                pre_done,
                                XmlTokenKind::ContentTag,
                                pre_accum,
                            ));
                        }
                    } else {
                        accum.push(c);
                    }
                },
                XmlTokenKind::AuxComment => {
                    if c == '-' && i < n && chars[i] == '>' {
                        state = XmlTokenKind::ContentTag;
                        i = i + 1;
                    }
                },
                _ => {},
            }
            proof {
                assert(xml_lex_from(chars@, pre_i, pre_state, pre_accum, pre_key, pre_done)
                    == xml_lex_from(
                    chars@,
                    i as int,
                    state,
                    accum@,
                    current_key@,
                    tokens_views(self.tokens@),
                ));
            }
        }
        proof {
            let scan = xml_lex_from(
                chars@,
                0,
                XmlTokenKind::AuxUnknown,
                Seq::empty(),
                Seq::empty(),
                Seq::empty(),
            );
            assert(scan == Ok::<Seq<XmlTokenView>, XMLErrorKind>(tokens_views(self.tokens@)));
        }
        Ok(())
    }
}

} // verus!
