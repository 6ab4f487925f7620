//! Stack-driven parser for the bracketed grammar.
//!
//! The parser keeps an explicit stack of currently-open container
//! nodes and processes the token sequence left to right, attaching
//! each new node under the stack's top.  Nesting and closing rules are
//! enforced as the stack is pushed and popped; no recursion is used.

use vstd::prelude::*;
use crate::arena::nodes_all_some;
use crate::arena::stack_model;
use crate::arena::nodes_closed;
use crate::arena::NaryNode;
use crate::arena::NaryTree;
use crate::arena::NodeAddr;
use crate::arena::NULL;
use crate::json::lexer::lex_from;
use crate::json::lexer::token_wf;
use crate::json::lexer::tokens_wf;
use crate::json::lexer::JsLexer;
use crate::json::lexer::LexerState;
use crate::json::lexer::JsToken;
use crate::json::lexer::LexerError;

verus! {

/// A fatal parse error; no partial tree is returned.
pub enum ParseError {
    LexFailed(LexerError),
    MissingCloseBracket,
    BracketMismatch,
    MissingProperty,
    InvalidToken(&'static str),
}

impl From<LexerError> for ParseError {
    fn from(err: LexerError) -> (r: Self) {
        ParseError::LexFailed(err)
    }
}

impl vstd::std_specs::convert::FromSpecImpl<LexerError> for ParseError {
    open spec fn obeys_from_spec() -> bool {
        true
    }

    open spec fn from_spec(err: LexerError) -> Self {
        ParseError::LexFailed(err)
    }
}

/// The token a node carries; nodes built by the parser always carry one.
pub open spec fn tok_of(nodes: Seq<NaryNode<JsToken>>, i: int) -> JsToken {
    match nodes[i].data {
        Some(t) => t,
        None => JsToken::Unknown,
    }
}

/// Every node whose token is a scalar (number or boolean) is a leaf.
pub open spec fn scalar_leaves(nodes: Seq<NaryNode<JsToken>>) -> bool {
    forall|i: int|
        0 <= i < nodes.len() && (tok_of(nodes, i) is Number || tok_of(nodes, i) is Boolean)
            ==> (#[trigger] nodes[i]).children@.len() == 0
}

/// `k` is an object-key node: a string node attached as a child of an
/// object (`{`) node.
pub open spec fn is_key(nodes: Seq<NaryNode<JsToken>>, k: int) -> bool {
    exists|p: int, j: int|
        0 <= p < nodes.len() && 0 <= j < nodes[p].children@.len() && (#[trigger] nodes[p].children@[j]) as int == k && tok_of(nodes, p) == JsToken::Open('{') && tok_of(nodes, k) is StringSpan
}

/// Every object-key node has at most one child: the value bound to it.
pub open spec fn keys_single_child(nodes: Seq<NaryNode<JsToken>>) -> bool {
    forall|k: int|
        0 <= k < nodes.len() && is_key(nodes, k) ==> (#[trigger] nodes[k]).children@.len() <= 1
}

/// Every token that completes a value (a closing bracket, a number or a
/// boolean) is immediately followed by a comma, a closing bracket, or
/// the end of the stream.  Every token sequence lexed from well-formed
/// bracketed input satisfies this.
pub open spec fn values_separated(toks: Seq<JsToken>) -> bool {
    forall|k: int|
        0 <= k < toks.len() && ((#[trigger] toks[k]) is Close || toks[k] is Number || toks[k]
            is Boolean) ==> (k + 1 >= toks.len() || toks[k + 1] is Comma || toks[k + 1] is Close)
}

/// The number of opening-bracket tokens among the first `n` of `toks`;
/// the parser allocates a node for every one of them.
pub open spec fn opens_in_prefix(toks: Seq<JsToken>, n: int) -> nat
    decreases n,
    when 0 <= n <= toks.len()
{
    if n <= 0 {
        0
    } else {
        opens_in_prefix(toks, n - 1) + (if toks[n - 1] is Open {
            1nat
        } else {
            0nat
        })
    }
}

/// Everything the parser guarantees of a tree built from `text`:
/// child links are in bounds and point forward, every node carries a
/// token, every token is well formed for `text`, and scalars are leaves.
pub open spec fn js_tree_wf(t: NaryTree<JsToken>, text: Seq<char>) -> bool {
    &&& nodes_closed(t.nodes@)
    &&& nodes_all_some(t.nodes@)
    &&& (forall|i: int| 0 <= i < t.nodes@.len() ==> token_wf(#[trigger] tok_of(t.nodes@, i), text))
    &&& scalar_leaves(t.nodes@)
}

/// Allocating a fresh node changes no key status: the fresh node has no
/// parent and no children yet.
proof fn lemma_is_key_alloc(n1: Seq<NaryNode<JsToken>>, n2: Seq<NaryNode<JsToken>>, c: int)
    requires
        n2.len() == n1.len() + 1,
        c == n1.len(),
        forall|i: int| 0 <= i < n1.len() ==> n2[i] == n1[i],
        n2[c].children@.len() == 0,
        nodes_closed(n1),
    ensures
        forall|x: int| 0 <= x < n1.len() ==> (is_key(n2, x) <==> is_key(n1, x)),
        !is_key(n2, c),
{
    assert forall|x: int| 0 <= x < n1.len() implies (is_key(n2, x) <==> is_key(n1, x)) by {
        if is_key(n2, x) {
            let (p, j) = choose|p: int, j: int|
                0 <= p < n2.len() && 0 <= j < n2[p].children@.len() && (n2[p].children@[j]) as int
                    == x && tok_of(n2, p) == JsToken::Open('{') && tok_of(n2, x) is StringSpan;
            if p < n1.len() {
                assert(n2[p] == n1[p]);
                assert(is_key(n1, x));
            } else {
                assert(p == c);
                assert(n2[c].children@.len() == 0);
            }
        }
        if is_key(n1, x) {
            let (p, j) = choose|p: int, j: int|
                0 <= p < n1.len() && 0 <= j < n1[p].children@.len() && (n1[p].children@[j]) as int
                    == x && tok_of(n1, p) == JsToken::Open('{') && tok_of(n1, x) is StringSpan;
            assert(n2[p] == n1[p]);
            assert(0 <= p < n2.len() && 0 <= j < n2[p].children@.len() && (n2[p].children@[j]) as int
                == x && tok_of(n2, p) == JsToken::Open('{') && tok_of(n2, x) is StringSpan);
        }
    }
    if is_key(n2, c) {
        let (p, j) = choose|p: int, j: int|
            0 <= p < n2.len() && 0 <= j < n2[p].children@.len() && (n2[p].children@[j]) as int == c
                && tok_of(n2, p) == JsToken::Open('{') && tok_of(n2, c) is StringSpan;
        if p < n1.len() {
            assert(n2[p] == n1[p]);
            assert(((n1[p].children@[j]) as int) < n1.len());
        }
    }
}

/// Attaching a node that nothing points at yet changes the key status
/// of no other node; the attached node becomes a key exactly when its
/// new parent is an object node and it is itself a string node.
proof fn lemma_is_key_attach(
    n1: Seq<NaryNode<JsToken>>,
    n2: Seq<NaryNode<JsToken>>,
    p: int,
    c: int,
)
    requires
        n1.len() == n2.len(),
        n1.len() <= 0xFFFF_FFFF,
        0 <= p < n1.len(),
        0 <= c < n1.len(),
        p != c,
        forall|i: int| 0 <= i < n1.len() && i != p ==> n2[i] == n1[i],
        n2[p].data == n1[p].data,
        n2[p].children@ == n1[p].children@.push(c as u32),
        forall|i: int, j: int|
            0 <= i < n1.len() && 0 <= j < n1[i].children@.len() ==> ((#[trigger] n1[i].children@[j]) as int) != c,
    ensures
        forall|x: int| 0 <= x < n1.len() && x != c ==> (is_key(n2, x) <==> is_key(n1, x)),
        is_key(n2, c) <==> (tok_of(n1, p) == JsToken::Open('{') && tok_of(n1, c) is StringSpan),
{
    assert forall|x: int| 0 <= x < n1.len() && x != c implies (is_key(n2, x) <==> is_key(n1, x)) by {
        if is_key(n2, x) {
            let (q, j) = choose|q: int, j: int|
                0 <= q < n2.len() && 0 <= j < n2[q].children@.len() && (n2[q].children@[j]) as int
                    == x && tok_of(n2, q) == JsToken::Open('{') && tok_of(n2, x) is StringSpan;
            if q != p {
                assert(n2[q] == n1[q]);
                assert(is_key(n1, x));
            } else {
                if j < n1[p].children@.len() {
                    assert(n1[p].children@[j] == n2[p].children@[j]);
                    assert(tok_of(n1, p) == tok_of(n2, p));
                    assert(is_key(n1, x));
                } else {
                    assert((n2[p].children@[j]) as int == c);
                }
            }
        }
        if is_key(n1, x) {
            let (q, j) = choose|q: int, j: int|
                0 <= q < n1.len() && 0 <= j < n1[q].children@.len() && (n1[q].children@[j]) as int
                    == x && tok_of(n1, q) == JsToken::Open('{') && tok_of(n1, x) is StringSpan;
            if q != p {
                assert(n2[q] == n1[q]);
                assert(0 <= q < n2.len() && 0 <= j < n2[q].children@.len() && (n2[q].children@[j]) as int == x && tok_of(n2, q) == JsToken::Open('{') && tok_of(n2, x) is StringSpan);
            } else {
                assert(n2[p].children@[j] == n1[p].children@[j]);
                assert(0 <= j < n2[p].children@.len());
                assert(tok_of(n2, p) == JsToken::Open('{') && tok_of(n2, x) is StringSpan);
                assert(is_key(n2, x));
            }
        }
    }
    if tok_of(n1, p) == JsToken::Open('{') && tok_of(n1, c) is StringSpan {
        let j = n1[p].children@.len() as int;
        assert(0 <= p < n2.len() && 0 <= j < n2[p].children@.len() && (n2[p].children@[j]) as int
            == c && tok_of(n2, p) == JsToken::Open('{') && tok_of(n2, c) is StringSpan);
        assert(is_key(n2, c));
    }
    if is_key(n2, c) {
        let (q, j) = choose|q: int, j: int|
            0 <= q < n2.len() && 0 <= j < n2[q].children@.len() && (n2[q].children@[j]) as int == c
                && tok_of(n2, q) == JsToken::Open('{') && tok_of(n2, c) is StringSpan;
        if q != p {
            assert(n2[q] == n1[q]);
        } else {
            if j < n1[p].children@.len() {
                assert((n1[p].children@[j]) as int != c);
            }
            assert(tok_of(n1, p) == tok_of(n2, p));
        }
        assert(tok_of(n1, c) == tok_of(n2, c));
    }
}

/// The characters of `raw_text` between the two offsets.
pub fn extract_text(raw_text: &String, lbound: u32, ubound: u32) -> (r: String)
    requires
        lbound <= ubound,
        ubound <= raw_text@.len(),
    ensures
        r@ == raw_text@.subrange(lbound as int, ubound as int),
{
    let chars = crate::text::str_to_chars(raw_text.as_str());
    let sv = crate::text::subvec(&chars, lbound as usize, ubound as usize);
    crate::text::chars_to_string(&sv)
}

/// The text of a string token: the characters strictly between its two
/// quotes, recovered from the source text by the recorded offsets.
pub fn string_contents(raw_text: &String, tok: &JsToken) -> (r: Option<String>)
    requires
        token_wf(*tok, raw_text@),
    ensures
        *tok matches JsToken::StringSpan { lbound, ubound } ==> (r matches Some(s) && s@
            == raw_text@.subrange(lbound as int + 1, ubound as int)),
        !(*tok is StringSpan) ==> r is None,
{
    match tok {
        JsToken::StringSpan { lbound, ubound } => Some(
            extract_text(raw_text, *lbound + 1, *ubound),
        ),
        _ => None,
    }
}

/// Law: re-extracting any string token of a successful scan by its
/// recorded offsets reproduces exactly the quoted substring of the
/// source text: both offsets lie inside the text and sit on the two
/// quotes, so the characters strictly between them are the string's
/// own, unshifted.
pub proof fn lemma_string_spans_extract_exactly(toks: Seq<JsToken>, text: Seq<char>, i: int)
    requires
        tokens_wf(toks, text),
        0 <= i < toks.len(),
    ensures
        toks[i] matches JsToken::StringSpan { lbound, ubound } ==> lbound < ubound && (
        ubound as int) < text.len() && text[lbound as int] == '"' && text[ubound as int] == '"',
{
    assert(token_wf(toks[i], text));
}

/// Structural comparison of two parse errors by variant and, for the
/// variants that carry one, payload.
pub open spec fn parse_err_matches(a: ParseError, b: ParseError) -> bool {
    match (a, b) {
        (ParseError::LexFailed(x), ParseError::LexFailed(y)) => x == y,
        (ParseError::MissingCloseBracket, ParseError::MissingCloseBracket) => true,
        (ParseError::BracketMismatch, ParseError::BracketMismatch) => true,
        (ParseError::MissingProperty, ParseError::MissingProperty) => true,
        (ParseError::InvalidToken(x), ParseError::InvalidToken(y)) => x@ == y@,
        _ => false,
    }
}

/// One node of the specification-level parse: its token and the
/// indices of its children, in order.
#[verifier::ext_equal]
pub struct JsNodeModel {
    pub tok: JsToken,
    pub children: Seq<int>,
}

/// Allocates a node holding `tok` and attaches it as the last child of
/// `parent` (specification level).
pub open spec fn js_model_attach(pool: Seq<JsNodeModel>, parent: int, tok: JsToken) -> Seq<
    JsNodeModel,
> {
    pool.update(
        parent,
        JsNodeModel { tok: pool[parent].tok, children: pool[parent].children.push(pool.len() as int) },
    ).push(JsNodeModel { tok, children: Seq::empty() })
}

/// The specification-level value of the arena the parser builds.
pub open spec fn js_pool_model(nodes: Seq<NaryNode<JsToken>>) -> Seq<JsNodeModel> {
    Seq::new(
        nodes.len(),
        |i: int|
            JsNodeModel {
                tok: tok_of(nodes, i),
                children: Seq::new(nodes[i].children@.len(), |j: int| nodes[i].children@[j] as int),
            },
    )
}

/// Pops finished entries until an open-bracket node is on top, or the
/// stack runs out; the open node itself stays.
pub open spec fn pop_to_open(pool: Seq<JsNodeModel>, stack: Seq<int>) -> Seq<int>
    decreases stack.len(),
{
    if stack.len() == 0 {
        stack
    } else if pool[stack.last()].tok is Open {
        stack
    } else {
        pop_to_open(pool, stack.drop_last())
    }
}

/// Pops entries until an open-bracket node has been popped, and yields
/// the remaining stack together with that node's token (`Unknown` when
/// the stack runs out first).
pub open spec fn pop_through_open(pool: Seq<JsNodeModel>, stack: Seq<int>) -> (Seq<int>, JsToken)
    decreases stack.len(),
{
    if stack.len() == 0 {
        (stack, JsToken::Unknown)
    } else if pool[stack.last()].tok is Open {
        (stack.drop_last(), pool[stack.last()].tok)
    } else {
        pop_through_open(pool, stack.drop_last())
    }
}

/// The whole behaviour of the parser, one token per step: open
/// brackets allocate, attach under the top and push; scalars and
/// strings attach by the parent's kind under the rules of the grammar;
/// commas pop finished properties; close brackets pop to the matching
/// open or fail.  The stack is deliberately not checked at the end.
pub open spec fn js_parse_step(
    ts: Seq<JsToken>,
    t: int,
    pool: Seq<JsNodeModel>,
    stack: Seq<int>,
) -> Result<Seq<JsNodeModel>, ParseError>
    decreases ts.len() - t,
    when 0 <= t
{
    if t >= ts.len() {
        Ok(pool)
    } else {
        let tok = ts[t];
        match tok {
            JsToken::Open(_) => {
                let pool2 = if stack.len() > 0 {
                    js_model_attach(pool, stack.last(), tok)
                } else {
                    pool.push(JsNodeModel { tok, children: Seq::empty() })
                };
                js_parse_step(ts, t + 1, pool2, stack.push(pool.len() as int))
            },
            JsToken::Number { .. } | JsToken::StringSpan { .. } | JsToken::Boolean(_) => {
                if stack.len() == 0 {
                    js_parse_step(ts, t + 1, pool, stack)
                } else {
                    let parent = stack.last();
                    let ptok = pool[parent].tok;
                    if ptok == JsToken::Open('[') {
                        if comma_or_close_next(ts, t + 1) {
                            js_parse_step(ts, t + 1, js_model_attach(pool, parent, tok), stack)
                        } else {
                            Err(ParseError::InvalidToken("missing colon or close bracket"))
                        }
                    } else if ptok == JsToken::Open('{') {
                        if tok is StringSpan {
                            let child = pool.len() as int;
                            let pool2 = js_model_attach(pool, parent, tok);
                            if t + 1 < ts.len() && ts[t + 1] is Colon {
                                js_parse_step(ts, t + 2, pool2, stack.push(child))
                            } else if t + 1 < ts.len() && !(ts[t + 1] is Close) {
                                Err(ParseError::InvalidToken("missing colon"))
                            } else {
                                js_parse_step(ts, t + 1, pool2, stack.push(child))
                            }
                        } else {
                            Err(ParseError::MissingProperty)
                        }
                    } else if ptok is StringSpan {
                        if comma_or_close_next(ts, t + 1) {
                            let pool2 = js_model_attach(pool, parent, tok);
                            if tok is Number || tok is Boolean {
                                js_parse_step(ts, t + 1, pool2, stack.drop_last())
                            } else {
                                js_parse_step(ts, t + 1, pool2, stack.push(pool.len() as int))
                            }
                        } else {
                            Err(ParseError::InvalidToken("missing colon or close bracket"))
                        }
                    } else {
                        js_parse_step(ts, t + 1, pool, stack)
                    }
                }
            },
            JsToken::Comma => js_parse_step(ts, t + 1, pool, pop_to_open(pool, stack)),
            JsToken::Close(cb) => {
                let ob = if cb == '}' {
                    '{'
                } else {
                    '['
                };
                if stack.len() == 0 {
                    Err(ParseError::MissingCloseBracket)
                } else {
                    let popped = pop_through_open(pool, stack);
                    if popped.1 == JsToken::Open(ob) {
                        js_parse_step(ts, t + 1, pool, popped.0)
                    } else {
                        Err(ParseError::BracketMismatch)
                    }
                }
            },
            _ => js_parse_step(ts, t + 1, pool, stack),
        }
    }
}

/// The tree the parser owes for a given token stream, or the error it
/// owes, starting from an empty arena and an empty stack.
pub open spec fn js_parse_spec(ts: Seq<JsToken>) -> Result<Seq<JsNodeModel>, ParseError> {
    js_parse_step(ts, 0, Seq::empty(), Seq::empty())
}

/// Allocating a token node and attaching it under `parent` takes the
/// pool's model through `js_model_attach`.
proof fn lemma_js_pool_model_attach(
    p0: Seq<NaryNode<JsToken>>,
    p1: Seq<NaryNode<JsToken>>,
    parent: int,
    ctok: JsToken,
)
    requires
        p1.len() == p0.len() + 1,
        p0.len() < 0xFFFF_FFFF,
        0 <= parent < p0.len(),
        forall|i: int| 0 <= i < p0.len() && i != parent ==> p1[i] == p0[i],
        p1[parent].data == p0[parent].data,
        p1[parent].children@ == p0[parent].children@.push(p0.len() as u32),
        tok_of(p1, p0.len() as int) == ctok,
        p1[p0.len() as int].children@.len() == 0,
    ensures
        js_pool_model(p1) == js_model_attach(js_pool_model(p0), parent, ctok),
{
    let m0 = js_pool_model(p0);
    let m1 = js_pool_model(p1);
    let ma = js_model_attach(m0, parent, ctok);
    assert forall|i: int| 0 <= i < m1.len() implies m1[i] =~~= ma[i] by {
        if i < p0.len() {
            if i != parent {
                assert(p1[i] == p0[i]);
            } else {
                assert(m1[i].tok == m0[i].tok);
                assert forall|j: int| 0 <= j < p1[i].children@.len() implies m1[i].children[j]
                    == ma[i].children[j] by {
                    if j < p0[parent].children@.len() {
                        assert(p1[parent].children@[j] == p0[parent].children@[j]);
                    } else {
                        assert(p1[parent].children@[j] == p0.len() as u32);
                    }
                }
            }
        }
    }
    assert(m1 =~~= ma);
}

/// Allocating a fresh, unattached node appends it to the pool's model.
proof fn lemma_js_pool_model_alloc(
    p0: Seq<NaryNode<JsToken>>,
    p1: Seq<NaryNode<JsToken>>,
    ctok: JsToken,
)
    requires
        p1.len() == p0.len() + 1,
        forall|i: int| 0 <= i < p0.len() ==> p1[i] == p0[i],
        tok_of(p1, p0.len() as int) == ctok,
        p1[p0.len() as int].children@.len() == 0,
    ensures
        js_pool_model(p1) == js_pool_model(p0).push(JsNodeModel { tok: ctok, children: Seq::empty() }),
{
    let m1 = js_pool_model(p1);
    let ma = js_pool_model(p0).push(JsNodeModel { tok: ctok, children: Seq::empty() });
    assert forall|i: int| 0 <= i < m1.len() implies m1[i] =~~= ma[i] by {
        if i < p0.len() {
            assert(p1[i] == p0[i]);
        }
    }
    assert(m1 =~~= ma);
}

/// The bracketed-grammar engine: a lexer plus the arena tree the parser
/// builds.
pub struct JsAst {
    pub lexer: JsLexer,
    pub ast: NaryTree<JsToken>,
}

/// The token at `start` exists and is a comma or a closing bracket; a
/// finished value must be followed directly by one of the two.
pub open spec fn comma_or_close_next(toks: Seq<JsToken>, start: int) -> bool {
    start < toks.len() && ((toks[start] is Comma) || toks[start] is Close)
}

/// Checks, without consuming it, that the token at `start` is a comma
/// or a closing bracket.
pub fn lookahead(tokens: &Vec<JsToken>, start: usize) -> (r: bool)
    ensures
        r == comma_or_close_next(tokens@, start as int),
{
    start < tokens.len() && matches!(tokens[start], JsToken::Comma | JsToken::Close(_))
}

impl JsAst {
    /// A fresh engine with an empty token stream and an empty tree.
    pub fn new() -> (r: Self)
        ensures
            r.lexer.token_stream@.len() == 0,
            r.lexer.state is Start,
            r.ast.nodes@.len() == 0,
            r.ast.root == NULL,
    {
        JsAst { ast: NaryTree::new(), lexer: JsLexer::new() }
    }

    /// Allocates a node for the parser; the first allocation of a parse
    /// becomes the tree root.
    pub fn parse_allocate(
        ast: &mut NaryTree<JsToken>,
        data: Option<JsToken>,
        first_alloc: &mut bool,
    ) -> (addr: NodeAddr)
        requires
            old(ast).nodes@.len() < NULL,
        ensures
            addr as int == old(ast).nodes@.len(),
            addr < NULL,
            final(ast).nodes@.len() == old(ast).nodes@.len() + 1,
            forall|i: int| 0 <= i < old(ast).nodes@.len() ==> final(ast).nodes@[i] == old(ast).nodes@[i],
            final(ast).nodes@[addr as int].data == data,
            final(ast).nodes@[addr as int].children@ == Seq::<u32>::empty(),
            *final(first_alloc) == false,
            final(ast).root == if *old(first_alloc) {
                addr
            } else {
                old(ast).root
            },
    {
        let addr = ast.allocate_node(data);
        if *first_alloc {
            ast.root = addr;
        }
        *first_alloc = false;
        addr
    }

    /// The token stored at `addr`.
    fn tok_at(ast: &NaryTree<JsToken>, addr: NodeAddr) -> (tok: JsToken)
        requires
            addr < ast.nodes@.len(),
            nodes_all_some(ast.nodes@),
        ensures
            tok == tok_of(ast.nodes@, addr as int),
    {
        ast.node(addr).data.unwrap()
    }

    /// Lexes and parses bracketed text into the arena tree, using an
    /// explicit stack of open-container node addresses.
    ///
    /// The result, the chosen error, and the tree are exactly what the
    /// specification-level scan `lex_from` and parse `js_parse_spec`
    /// yield on the text.  On success the tree is well formed for
    /// `raw_text` and, whenever the token stream separates finished
    /// values by commas or closing brackets (as every well-formed
    /// input does), every object-key node has at most one child.
    pub fn parse(&mut self, raw_text: &String) -> (r: Result<(), ParseError>)
        requires
            old(self).lexer.token_stream@.len() == 0,
            old(self).lexer.state is Start,
            old(self).ast.nodes@.len() == 0,
            old(self).ast.root == NULL,
            raw_text@.len() < 0xFFFF_FFFF,
        ensures
            ({
                let scan = lex_from(raw_text@, 0, LexerState::Start, 0);
                match scan {
                    Err(e) => r == Err::<(), ParseError>(ParseError::LexFailed(e)),
                    Ok(ts) => final(self).lexer.token_stream@ == ts && match js_parse_spec(ts) {
                        Ok(mp) => r is Ok && js_pool_model(final(self).ast.nodes@) == mp,
                        Err(e) => r matches Err(e2) && parse_err_matches(e2, e),
                    },
                }
            }),
            r is Ok ==> js_tree_wf(final(self).ast, raw_text@),
            r is Ok ==> tokens_wf(final(self).lexer.token_stream@, raw_text@),
            r is Ok && values_separated(final(self).lexer.token_stream@) ==> keys_single_child(
                final(self).ast.nodes@,
            ),
            r is Ok ==> (final(self).ast.nodes@.len() == 0 ==> final(self).ast.root == NULL) && (
            final(self).ast.nodes@.len() > 0 ==> final(self).ast.root == 0),
            r is Ok ==> final(self).ast.nodes@.len() >= opens_in_prefix(
                final(self).lexer.token_stream@,
                final(self).lexer.token_stream@.len() as int,
            ) && final(self).ast.nodes@.len() <= final(self).lexer.token_stream@.len(),
            r is Ok && final(self).lexer.token_stream@.len() > 0 && final(self).lexer.token_stream@[0] is Open ==> final(self).ast.nodes@.len() > 0 && final(self).ast.nodes@[0].data == Some(final(self).lexer.token_stream@[0]),
    {
        match self.lexer.lex(raw_text) {
            Err(e) => {
                return Err(ParseError::from(e));
            },
            Ok(()) => {},
        }
        let ghost text = raw_text@;
        let ghost lex0 = self.lexer;

        // Work on a copy of the token stream so the arena can be
        // mutated freely while tokens are read.
        let mut toks: Vec<JsToken> = Vec::new();
        {
            let stream = self.lexer.get_tok_stream();
            let mut i: usize = 0;
            while i < stream.len()
                invariant
                    i <= stream@.len(),
                    toks@ == stream@.subrange(0, i as int),
                decreases stream@.len() - i,
            {
                toks.push(stream[i]);
                i = i + 1;
                proof {
                    assert(toks@ =~= stream@.subrange(0, i as int));
                }
            }
            proof {
                assert(toks@ =~= stream@);
            }
        }

        let mut parent_stack: Vec<NodeAddr> = Vec::new();
        let mut first_alloc = true;
        let mut t: usize = 0;
        proof {
            assert(js_pool_model(self.ast.nodes@) =~~= Seq::<JsNodeModel>::empty());
            assert(stack_model(parent_stack@) =~= Seq::<int>::empty());
        }

        while t < toks.len()
            invariant
                self.lexer == lex0,
                toks@ == lex0.token_stream@,
                lex_from(raw_text@, 0, LexerState::Start, 0) == Ok::<Seq<JsToken>, LexerError>(
                    toks@,
                ),
                js_parse_spec(toks@) == js_parse_step(
                    toks@,
                    t as int,
                    js_pool_model(self.ast.nodes@),
                    stack_model(parent_stack@),
                ),
                tokens_wf(toks@, text),
                toks@.len() <= text.len(),
                text.len() < 0xFFFF_FFFF,
                t <= toks@.len(),
                nodes_closed(self.ast.nodes@),
                nodes_all_some(self.ast.nodes@),
                forall|i: int|
                    0 <= i < self.ast.nodes@.len() ==> token_wf(
                        #[trigger] tok_of(self.ast.nodes@, i),
                        text,
                    ),
                scalar_leaves(self.ast.nodes@),
                self.ast.nodes@.len() <= t,
                self.ast.nodes@.len() >= opens_in_prefix(toks@, t as int),
                toks@.len() > 0 && toks@[0] is Open && t >= 1 ==> self.ast.nodes@.len() > 0
                    && self.ast.nodes@[0].data == Some(toks@[0]),
                first_alloc <==> self.ast.nodes@.len() == 0,
                self.ast.nodes@.len() > 0 ==> self.ast.root == 0,
                self.ast.nodes@.len() == 0 ==> self.ast.root == NULL,
                forall|k: int|
                    0 <= k < parent_stack@.len() ==> ((#[trigger] parent_stack@[k]) as int)
                        < self.ast.nodes@.len(),
                forall|k1: int, k2: int|
                    0 <= k1 < k2 < parent_stack@.len() ==> parent_stack@[k1] < parent_stack@[k2],
                forall|k: int|
                    0 <= k < parent_stack@.len() ==> (tok_of(
                        self.ast.nodes@,
                        (#[trigger] parent_stack@[k]) as int,
                    ) is Open || tok_of(self.ast.nodes@, parent_stack@[k] as int) is StringSpan),
                values_separated(toks@) ==> keys_single_child(self.ast.nodes@),
                values_separated(toks@) ==> (parent_stack@.len() > 0 && is_key(
                    self.ast.nodes@,
                    parent_stack@[parent_stack@.len() - 1] as int,
                ) && self.ast.nodes@[parent_stack@[parent_stack@.len() - 1] as int].children@.len()
                    >= 1 ==> (t >= toks@.len() || toks@[t as int] is Comma || toks@[t as int]
                    is Close)),
            decreases toks@.len() - t,
        {
            let ghost n_pre = self.ast.nodes@;
            let ghost stack_pre = parent_stack@;
            let ghost pm0 = js_pool_model(n_pre);
            let ghost sm0 = stack_model(stack_pre);
            let tok = toks[t];
            let ghost t0 = t as int;
            t = t + 1;
            match tok {
                JsToken::Open(_) => {
                    let addr = Self::parse_allocate(&mut self.ast, Some(tok), &mut first_alloc);
                    proof {
                        lemma_is_key_alloc(n_pre, self.ast.nodes@, addr as int);
                    }
                    let ghost n_mid = self.ast.nodes@;
                    if parent_stack.len() > 0 {
                        let parent_addr = parent_stack[parent_stack.len() - 1];
                        self.ast.add_child(parent_addr, addr);
                        proof {
                            assert forall|i: int, j: int|
                                0 <= i < n_mid.len() && 0 <= j < n_mid[i].children@.len() implies ((
                            #[trigger] n_mid[i].children@[j]) as int) != addr as int by {
                                if i < n_pre.len() {
                                    assert(n_mid[i] == n_pre[i]);
                                }
                            }
                            lemma_is_key_attach(
                                n_mid,
                                self.ast.nodes@,
                                parent_addr as int,
                                addr as int,
                            );
                            assert(sm0[sm0.len() - 1] == parent_addr as int);
                            lemma_js_pool_model_attach(
                                n_pre,
                                self.ast.nodes@,
                                parent_addr as int,
                                tok,
                            );
                        }
                    } else {
                        proof {
                            lemma_js_pool_model_alloc(n_pre, self.ast.nodes@, tok);
                        }
                    }
                    parent_stack.push(addr);
                    proof {
                        assert(stack_model(parent_stack@) =~= sm0.push(addr as int));
                        assert(js_parse_step(toks@, t0, pm0, sm0) == js_parse_step(
                            toks@,
                            t0 + 1,
                            js_pool_model(self.ast.nodes@),
                            stack_model(parent_stack@),
                        ));
                    }
                },
                JsToken::Number { .. } | JsToken::StringSpan { .. } | JsToken::Boolean(_) => {
                    if parent_stack.len() > 0 {
                        let parent_addr = parent_stack[parent_stack.len() - 1];
                        let parent_token = Self::tok_at(&self.ast, parent_addr);
                        proof {
                            assert(sm0[sm0.len() - 1] == parent_addr as int);
                            assert(pm0[parent_addr as int].tok == parent_token);
                        }

                        if parent_token == JsToken::Open('[') {
                            let child_addr = Self::parse_allocate(
                                &mut self.ast,
                                Some(tok),
                                &mut first_alloc,
                            );
                            proof {
                                lemma_is_key_alloc(n_pre, self.ast.nodes@, child_addr as int);
                            }
                            let ghost n_mid = self.ast.nodes@;
                            self.ast.add_child(parent_addr, child_addr);
                            proof {
                                assert forall|i: int, j: int|
                                    0 <= i < n_mid.len() && 0 <= j < n_mid[i].children@.len() implies ((
                                #[trigger] n_mid[i].children@[j]) as int) != child_addr as int by {
                                    if i < n_pre.len() {
                                        assert(n_mid[i] == n_pre[i]);
                                    }
                                }
                                lemma_is_key_attach(
                                    n_mid,
                                    self.ast.nodes@,
                                    parent_addr as int,
                                    child_addr as int,
                                );
                            }
                            let la = lookahead(&toks, t);
                            if la == false {
                                proof {
                                    assert(js_parse_step(toks@, t0, pm0, sm0) == Err::<
                                        Seq<JsNodeModel>,
                                        ParseError,
                                    >(ParseError::InvalidToken("missing colon or close bracket")));
                                }
                                return Err(ParseError::InvalidToken("missing colon or close bracket"));
                            }
                            proof {
                                lemma_js_pool_model_attach(
                                    n_pre,
                                    self.ast.nodes@,
                                    parent_addr as int,
                                    tok,
                                );
                                assert(js_parse_step(toks@, t0, pm0, sm0) == js_parse_step(
                                    toks@,
                                    t0 + 1,
                                    js_pool_model(self.ast.nodes@),
                                    sm0,
                                ));
                            }
                        } else if parent_token == JsToken::Open('{') {
                            if let JsToken::StringSpan { .. } = tok {
                                let child_addr = Self::parse_allocate(
                                    &mut self.ast,
                                    Some(tok),
                                    &mut first_alloc,
                                );
                                proof {
                                    lemma_is_key_alloc(n_pre, self.ast.nodes@, child_addr as int);
                                }
                                let ghost n_mid = self.ast.nodes@;
                                self.ast.add_child(parent_addr, child_addr);
                                proof {
                                    assert forall|i: int, j: int|
                                        0 <= i < n_mid.len() && 0 <= j
                                            < n_mid[i].children@.len() implies ((#[trigger] n_mid[i].children@[
                                    j]) as int) != child_addr as int by {
                                        if i < n_pre.len() {
                                            assert(n_mid[i] == n_pre[i]);
                                        }
                                    }
                                    lemma_is_key_attach(
                                        n_mid,
                                        self.ast.nodes@,
                                        parent_addr as int,
                                        child_addr as int,
                                    );
                                }
                                proof {
                                    lemma_js_pool_model_attach(
                                        n_pre,
                                        self.ast.nodes@,
                                        parent_addr as int,
                                        tok,
                                    );
                                }
                                if t < toks.len() {
                                    match toks[t] {
                                        JsToken::Colon => {
                                            t = t + 1;
                                            proof {
                                                assert(opens_in_prefix(toks@, t0 + 2)
                                                    == opens_in_prefix(toks@, t0 + 1));
                                            }
                                        },
                                        JsToken::Close(_) => {},
                                        _ => {
                                            proof {
                                                assert(js_parse_step(toks@, t0, pm0, sm0) == Err::<
                                                    Seq<JsNodeModel>,
                                                    ParseError,
                                                >(ParseError::InvalidToken("missing colon")));
                                            }
                                            return Err(ParseError::InvalidToken("missing colon"));
                                        },
                                    }
                                }
                                parent_stack.push(child_addr);
                                proof {
                                    assert(stack_model(parent_stack@) =~= sm0.push(
                                        n_pre.len() as int,
                                    ));
                                    assert(js_parse_step(toks@, t0, pm0, sm0) == js_parse_step(
                                        toks@,
                                        t as int,
                                        js_pool_model(self.ast.nodes@),
                                        stack_model(parent_stack@),
                                    ));
                                }
                            } else {
                                proof {
                                    assert(js_parse_step(toks@, t0, pm0, sm0) == Err::<
                                        Seq<JsNodeModel>,
                                        ParseError,
                                    >(ParseError::MissingProperty));
                                }
                                return Err(ParseError::MissingProperty);
                            }
                        } else if let JsToken::StringSpan { .. } = parent_token {
                            let child_addr = Self::parse_allocate(
                                &mut self.ast,
                                Some(tok),
                                &mut first_alloc,
                            );
                            proof {
                                lemma_is_key_alloc(n_pre, self.ast.nodes@, child_addr as int);
                            }
                            let ghost n_mid = self.ast.nodes@;
                            self.ast.add_child(parent_addr, child_addr);
                            proof {
                                assert forall|i: int, j: int|
                                    0 <= i < n_mid.len() && 0 <= j < n_mid[i].children@.len() implies ((
                                #[trigger] n_mid[i].children@[j]) as int) != child_addr as int by {
                                    if i < n_pre.len() {
                                        assert(n_mid[i] == n_pre[i]);
                                    }
                                }
                                lemma_is_key_attach(
                                    n_mid,
                                    self.ast.nodes@,
                                    parent_addr as int,
                                    child_addr as int,
                                );
                            }
                            let la = lookahead(&toks, t);
                            if la == false {
                                proof {
                                    assert(js_parse_step(toks@, t0, pm0, sm0) == Err::<
                                        Seq<JsNodeModel>,
                                        ParseError,
                                    >(ParseError::InvalidToken("missing colon or close bracket")));
                                }
                                return Err(ParseError::InvalidToken("missing colon or close bracket"));
                            }
                            proof {
                                lemma_js_pool_model_attach(
                                    n_pre,
                                    self.ast.nodes@,
                                    parent_addr as int,
                                    tok,
                                );
                            }
                            match tok {
                                JsToken::Number { .. } | JsToken::Boolean(_) => {
                                    // numbers and booleans never have children;
                                    // the finished property leaves the stack now
                                    parent_stack.pop();
                                    proof {
                                        if values_separated(toks@) {
                                            assert(toks@[t0] is Number || toks@[t0] is Boolean);
                                            assert(t0 + 1 >= toks@.len() || toks@[t0 + 1] is Comma
                                                || toks@[t0 + 1] is Close);
                                        }
                                        assert(stack_model(parent_stack@) =~= sm0.drop_last());
                                        assert(js_parse_step(toks@, t0, pm0, sm0) == js_parse_step(
                                            toks@,
                                            t0 + 1,
                                            js_pool_model(self.ast.nodes@),
                                            stack_model(parent_stack@),
                                        ));
                                    }
                                },
                                _ => {
                                    parent_stack.push(child_addr);
                                    proof {
                                        assert(stack_model(parent_stack@) =~= sm0.push(
                                            n_pre.len() as int,
                                        ));
                                        assert(js_parse_step(toks@, t0, pm0, sm0) == js_parse_step(
                                            toks@,
                                            t0 + 1,
                                            js_pool_model(self.ast.nodes@),
                                            stack_model(parent_stack@),
                                        ));
                                    }
                                },
                            }
                        } else {
                            proof {
                                assert(js_parse_step(toks@, t0, pm0, sm0) == js_parse_step(
                                    toks@,
                                    t0 + 1,
                                    pm0,
                                    sm0,
                                ));
                            }
                        }
                    } else {
                        proof {
                            assert(js_parse_step(toks@, t0, pm0, sm0) == js_parse_step(
                                toks@,
                                t0 + 1,
                                pm0,
                                sm0,
                            ));
                        }
                    }
                },
                JsToken::Comma => {
                    if parent_stack.len() > 0 {
                        let parent_addr = parent_stack[parent_stack.len() - 1];
                        let parent_token = Self::tok_at(&self.ast, parent_addr);
                        proof {
                            assert(sm0[sm0.len() - 1] == parent_addr as int);
                            assert(pm0[parent_addr as int].tok == parent_token);
                        }

                        if parent_token != JsToken::Open('{') && parent_token != JsToken::Open('[') {
                            loop
                                invariant
                                    nodes_all_some(self.ast.nodes@),
                                    self.ast.nodes@ == n_pre,
                                    pm0 == js_pool_model(n_pre),
                                    pop_to_open(pm0, stack_model(parent_stack@)) == pop_to_open(
                                        pm0,
                                        sm0,
                                    ),
                                    forall|k: int|
                                        0 <= k < parent_stack@.len() ==> ((
                                        #[trigger] parent_stack@[k]) as int)
                                            < self.ast.nodes@.len(),
                                    forall|k1: int, k2: int|
                                        0 <= k1 < k2 < parent_stack@.len() ==> parent_stack@[k1]
                                            < parent_stack@[k2],
                                    forall|k: int|
                                        0 <= k < parent_stack@.len() ==> (tok_of(
                                            self.ast.nodes@,
                                            (#[trigger] parent_stack@[k]) as int,
                                        ) is Open || tok_of(
                                            self.ast.nodes@,
                                            parent_stack@[k] as int,
                                        ) is StringSpan),
                                ensures
                                    self.ast.nodes@ == n_pre,
                                    parent_stack@.len() == 0 || tok_of(
                                        self.ast.nodes@,
                                        parent_stack@[parent_stack@.len() - 1] as int,
                                    ) is Open,
                                    stack_model(parent_stack@) == pop_to_open(pm0, sm0),
                                decreases parent_stack@.len(),
                            {
                                let ghost s_cur = stack_model(parent_stack@);
                                match parent_stack.pop() {
                                    Some(pa) => {
                                        let ptok = Self::tok_at(&self.ast, pa);
                                        proof {
                                            assert(s_cur.last() == pa as int);
                                            assert(pm0[pa as int].tok == ptok);
                                            assert(stack_model(parent_stack@) =~= s_cur.drop_last());
                                        }
                                        if let JsToken::Open(_) = ptok {
                                            parent_stack.push(pa);
                                            proof {
                                                assert(stack_model(parent_stack@) =~= s_cur);
                                                assert(pop_to_open(pm0, s_cur) == s_cur);
                                            }
                                            break ;
                                        }
                                        proof {
                                            assert(pop_to_open(pm0, s_cur) == pop_to_open(
                                                pm0,
                                                s_cur.drop_last(),
                                            ));
                                        }
                                    },
                                    None => {
                                        proof {
                                            assert(s_cur.len() == 0);
                                            assert(pop_to_open(pm0, s_cur) == s_cur);
                                        }
                                        break ;
                                    },
                                }
                            }
                        } else {
                            proof {
                                assert(pop_to_open(pm0, sm0) == sm0);
                            }
                        }
                    } else {
                        proof {
                            assert(sm0.len() == 0);
                            assert(pop_to_open(pm0, sm0) == sm0);
                        }
                    }
                    proof {
                        assert(js_pool_model(self.ast.nodes@) == pm0);
                        assert(stack_model(parent_stack@) == pop_to_open(pm0, sm0));
                        assert(js_parse_step(toks@, t0, pm0, sm0) == js_parse_step(
                            toks@,
                            t0 + 1,
                            pm0,
                            pop_to_open(pm0, sm0),
                        ));
                    }
                },
                JsToken::Close(cb_char) => {
                    let ob_char = if cb_char == '}' {
                        '{'
                    } else {
                        '['
                    };
                    if parent_stack.len() == 0 {
                        proof {
                            assert(sm0.len() == 0);
                            assert(js_parse_step(toks@, t0, pm0, sm0) == Err::<
                                Seq<JsNodeModel>,
                                ParseError,
                            >(ParseError::MissingCloseBracket));
                        }
                        return Err(ParseError::MissingCloseBracket);
                    }
                    let ghost popped = pop_through_open(pm0, sm0);
                    let mut parent_tok = JsToken::Unknown;
                    loop
                        invariant_except_break
                            popped == pop_through_open(pm0, stack_model(parent_stack@)),
                            !(parent_tok is Open),
                        invariant
                            nodes_all_some(self.ast.nodes@),
                            self.ast.nodes@ == n_pre,
                            pm0 == js_pool_model(n_pre),
                            forall|k: int|
                                0 <= k < parent_stack@.len() ==> ((#[trigger] parent_stack@[k]) as int)
                                    < self.ast.nodes@.len(),
                            forall|k1: int, k2: int|
                                0 <= k1 < k2 < parent_stack@.len() ==> parent_stack@[k1]
                                    < parent_stack@[k2],
                            forall|k: int|
                                0 <= k < parent_stack@.len() ==> (tok_of(
                                    self.ast.nodes@,
                                    (#[trigger] parent_stack@[k]) as int,
                                ) is Open || tok_of(
                                    self.ast.nodes@,
                                    parent_stack@[k] as int,
                                ) is StringSpan),
                        ensures
                            self.ast.nodes@ == n_pre,
                            stack_model(parent_stack@) == popped.0,
                            popped.1 is Open ==> parent_tok == popped.1,
                            !(popped.1 is Open) ==> !(parent_tok is Open),
                        decreases parent_stack@.len(),
                    {
                        let ghost s_cur = stack_model(parent_stack@);
                        match parent_stack.pop() {
                            Some(pa) => {
                                parent_tok = Self::tok_at(&self.ast, pa);
                                proof {
                                    assert(s_cur.last() == pa as int);
                                    assert(pm0[pa as int].tok == parent_tok);
                                    assert(stack_model(parent_stack@) =~= s_cur.drop_last());
                                }
                                if let JsToken::Open(_) = parent_tok {
                                    proof {
                                        assert(popped == (s_cur.drop_last(), parent_tok));
                                    }
                                    break ;
                                }
                                proof {
                                    assert(pop_through_open(pm0, s_cur) == pop_through_open(
                                        pm0,
                                        s_cur.drop_last(),
                                    ));
                                }
                            },
                            None => {
                                proof {
                                    assert(s_cur.len() == 0);
                                    assert(popped == (s_cur, JsToken::Unknown));
                                }
                                break ;
                            },
                        }
                    }
                    proof {
                        assert((parent_tok == JsToken::Open(ob_char)) == (popped.1
                            == JsToken::Open(ob_char)));
                    }
                    if parent_tok != JsToken::Open(ob_char) {
                        proof {
                            assert(js_parse_step(toks@, t0, pm0, sm0) == Err::<
                                Seq<JsNodeModel>,
                                ParseError,
                            >(ParseError::BracketMismatch));
                        }
                        return Err(ParseError::BracketMismatch);
                    }
                    proof {
                        if values_separated(toks@) {
                            assert(toks@[t0] is Close);
                            assert(t0 + 1 >= toks@.len() || toks@[t0 + 1] is Comma || toks@[t0 + 1]
                                is Close);
                        }
                        assert(js_pool_model(self.ast.nodes@) == pm0);
                        assert(js_parse_step(toks@, t0, pm0, sm0) == js_parse_step(
                            toks@,
                            t0 + 1,
                            pm0,
                            popped.0,
                        ));
                    }
                },
                _ => {
                    proof {
                        assert(!(toks@[t0] is Comma || toks@[t0] is Close));
                        assert(js_parse_step(toks@, t0, pm0, sm0) == js_parse_step(
                            toks@,
                            t0 + 1,
                            pm0,
                            sm0,
                        ));
                    }
                },
            }
        }
        Ok(())
    }
}

} // verus!
