//! Stack-driven parser, renderer and grafting for the tagged grammar.
//!
//! The parser keeps an explicit stack of open-tag node addresses and
//! enforces tag matching and full closure.  The renderer serializes a
//! tree back to tagged text, verbatim or with whitespace trimmed.
//! Grafting deep-copies a subtree from one tree's arena into another's.

use vstd::prelude::*;
use crate::arena::nodes_all_some;
use crate::arena::stack_model;
use crate::arena::nodes_closed;
use crate::arena::NaryForest;
use crate::arena::NaryNode;
use crate::arena::Pointer;
use crate::arena::NULL;
use crate::text::all_whitespace;
use crate::text::str_eq;
use crate::text::trim_end_spec;
use crate::text::trim_end_string;
use crate::text::trim_spec;
use crate::text::trim_string;
use crate::xml::lexer::lexed_tokens_wf;
use crate::xml::lexer::tokens_views;
use crate::xml::lexer::xml_lex_from;
use crate::xml::lexer::XmlLexer;
use crate::xml::lexer::XmlToken;
use crate::xml::lexer::XmlTokenKind;
use crate::xml::lexer::XmlTokenView;
use crate::xml::XMLErrorKind;

verus! {

/// The view of the token stored at `i`; nodes built here always carry one.
pub open spec fn node_tok(nodes: Seq<NaryNode<XmlToken>>, i: int) -> XmlTokenView {
    match nodes[i].data {
        Some(t) => t@,
        None => XmlTokenView {
            kind: XmlTokenKind::AuxUnknown,
            content: Seq::empty(),
            attribs: Seq::empty(),
        },
    }
}

/// One rendered attribute: ` key="value"`, each side trimmed when
/// `trim` is set.
pub open spec fn render_attr(p: (Seq<char>, Seq<char>), trim: bool) -> Seq<char> {
    let k = if trim {
        trim_spec(p.0)
    } else {
        p.0
    };
    let v = if trim {
        trim_spec(p.1)
    } else {
        p.1
    };
    seq![' '] + k + seq!['=', '"'] + v + seq!['"']
}

/// The rendered attribute list from position `i` on, in order.
pub open spec fn render_attrs(attrs: Seq<(Seq<char>, Seq<char>)>, i: int, trim: bool) -> Seq<char>
    decreases attrs.len() - i,
    when 0 <= i <= attrs.len()
{
    if i >= attrs.len() {
        Seq::empty()
    } else {
        render_attr(attrs[i], trim) + render_attrs(attrs, i + 1, trim)
    }
}

/// The text that opens an open tag: `<name attrs>`; with `trim`, the
/// name keeps its leading text and loses trailing whitespace.
pub open spec fn open_text(t: XmlTokenView, trim: bool) -> Seq<char> {
    if trim {
        seq!['<'] + trim_end_spec(t.content) + render_attrs(t.attribs, 0, true) + seq!['>']
    } else {
        seq!['<'] + t.content + render_attrs(t.attribs, 0, false) + seq!['>']
    }
}

/// The text that closes an open tag: `</name>`.
pub open spec fn close_text(t: XmlTokenView, trim: bool) -> Seq<char> {
    if trim {
        seq!['<', '/'] + trim_spec(t.content) + seq!['>']
    } else {
        seq!['<', '/'] + t.content + seq!['>']
    }
}

/// The text of an empty tag: `<name attrs/>`; the trimmed form keeps a
/// space after the name, before the attribute list.
pub open spec fn empty_text(t: XmlTokenView, trim: bool) -> Seq<char> {
    if trim {
        seq!['<'] + trim_spec(t.content) + seq![' '] + render_attrs(t.attribs, 0, true) + seq![
            '/',
            '>',
        ]
    } else {
        seq!['<'] + t.content + render_attrs(t.attribs, 0, false) + seq!['/', '>']
    }
}

/// The depth-first pre-order rendering of the subtree rooted at `ptr`.
/// Open tags render their children between their opening and closing
/// text; content renders verbatim (trimmed on demand); empty tags
/// render as one self-closing tag; anything else renders as nothing.
pub open spec fn render_node(nodes: Seq<NaryNode<XmlToken>>, ptr: int, trim: bool) -> Seq<char>
    decreases nodes.len() - ptr, nodes[ptr].children@.len() + 1,
    when 0 <= ptr < nodes.len() && nodes_closed(nodes)
{
    match nodes[ptr].data {
        None => Seq::empty(),
        Some(t) => match t@.kind {
            XmlTokenKind::OpenTag => open_text(t@, trim) + render_kids(nodes, ptr, 0, trim)
                + close_text(t@, trim),
            XmlTokenKind::ContentTag => if trim {
                trim_spec(t@.content)
            } else {
                t@.content
            },
            XmlTokenKind::EmptyTag => empty_text(t@, trim),
            _ => Seq::empty(),
        },
    }
}

/// The concatenated renderings of `ptr`'s children from position `i` on.
pub open spec fn render_kids(nodes: Seq<NaryNode<XmlToken>>, ptr: int, i: int, trim: bool) -> Seq<
    char,
>
    decreases nodes.len() - ptr, nodes[ptr].children@.len() - i,
    when 0 <= ptr < nodes.len() && 0 <= i <= nodes[ptr].children@.len() && nodes_closed(nodes)
{
    if i >= nodes[ptr].children@.len() {
        Seq::empty()
    } else {
        render_node(nodes, nodes[ptr].children@[i] as int, trim) + render_kids(
            nodes,
            ptr,
            i + 1,
            trim,
        )
    }
}

/// The number of nodes in the subtree rooted at `ptr`, children counted
/// as often as they are attached.
pub open spec fn subtree_count(nodes: Seq<NaryNode<XmlToken>>, ptr: int) -> nat
    decreases nodes.len() - ptr, nodes[ptr].children@.len() + 1,
    when 0 <= ptr < nodes.len() && nodes_closed(nodes)
{
    1 + kids_count(nodes, ptr, 0)
}

/// The node count of `ptr`'s child subtrees from position `i` on.
pub open spec fn kids_count(nodes: Seq<NaryNode<XmlToken>>, ptr: int, i: int) -> nat
    decreases nodes.len() - ptr, nodes[ptr].children@.len() - i,
    when 0 <= ptr < nodes.len() && 0 <= i <= nodes[ptr].children@.len() && nodes_closed(nodes)
{
    if i >= nodes[ptr].children@.len() {
        0
    } else {
        subtree_count(nodes, nodes[ptr].children@[i] as int) + kids_count(nodes, ptr, i + 1)
    }
}

/// Allocating a token node and attaching it under a valid target (the
/// root or an open-tag node) preserves every structural invariant the
/// parser maintains.
proof fn lemma_attach_preserves(
    p0: Seq<NaryNode<XmlToken>>,
    p1: Seq<NaryNode<XmlToken>>,
    parent: int,
    c: int,
    ctok: XmlTokenView,
)
    requires
        p1.len() == p0.len() + 1,
        c == p0.len(),
        p0.len() < 0xFFFF_FFFF,
        0 <= parent < p0.len(),
        forall|i: int| 0 <= i < p0.len() && i != parent ==> p1[i] == p0[i],
        p1[parent].data == p0[parent].data,
        p1[parent].children@ == p0[parent].children@.push(c as u32),
        node_tok(p1, c) == ctok,
        p1[c].data is Some,
        p1[c].children@.len() == 0,
        nodes_closed(p0),
        nodes_all_some(p0),
        parent == 0 || node_tok(p0, parent).kind is OpenTag,
        forall|i: int|
            0 <= i < p0.len() ==> {
                let kd = (#[trigger] node_tok(p0, i)).kind;
                kd is OpenTag || kd is CloseTag || kd is EmptyTag || kd is ContentTag
            },
        forall|i: int| 1 <= i < p0.len() ==> !((#[trigger] node_tok(p0, i)).kind is CloseTag),
        forall|i: int|
            0 <= i < p0.len() ==> (#[trigger] node_tok(p0, i)).content.len() > 0
                && !all_whitespace(node_tok(p0, i).content),
        forall|i: int|
            1 <= i < p0.len() && ((#[trigger] node_tok(p0, i)).kind is ContentTag || node_tok(
                p0,
                i,
            ).kind is EmptyTag) ==> p0[i].children@.len() == 0,
        ctok.kind is OpenTag || ctok.kind is EmptyTag || ctok.kind is ContentTag,
        ctok.content.len() > 0,
        !all_whitespace(ctok.content),
    ensures
        nodes_closed(p1),
        nodes_all_some(p1),
        forall|i: int| 0 <= i < p0.len() ==> node_tok(p1, i) == node_tok(p0, i),
        forall|i: int|
            0 <= i < p1.len() ==> {
                let kd = (#[trigger] node_tok(p1, i)).kind;
                kd is OpenTag || kd is CloseTag || kd is EmptyTag || kd is ContentTag
            },
        forall|i: int| 1 <= i < p1.len() ==> !((#[trigger] node_tok(p1, i)).kind is CloseTag),
        forall|i: int|
            0 <= i < p1.len() ==> (#[trigger] node_tok(p1, i)).content.len() > 0
                && !all_whitespace(node_tok(p1, i).content),
        forall|i: int|
            1 <= i < p1.len() && ((#[trigger] node_tok(p1, i)).kind is ContentTag || node_tok(
                p1,
                i,
            ).kind is EmptyTag) ==> p1[i].children@.len() == 0,
{
    assert forall|i: int| 0 <= i < p0.len() implies node_tok(p1, i) == node_tok(p0, i) by {
        if i != parent {
            assert(p1[i] == p0[i]);
        } else {
            assert(p1[i].data == p0[i].data);
        }
    }
    assert forall|i: int, j: int|
        0 <= i < p1.len() && 0 <= j < p1[i].children@.len() implies i
        < ((#[trigger] p1[i].children@[j]) as int) && p1[i].children@[j] < p1.len() by {
        if i < p0.len() {
            if i != parent {
                assert(p1[i] == p0[i]);
            } else {
                if j < p0[parent].children@.len() {
                    assert(p1[i].children@[j] == p0[i].children@[j]);
                } else {
                    assert((p1[i].children@[j]) as int == c);
                }
            }
        }
    }
    assert forall|i: int|
        1 <= i < p1.len() && ((#[trigger] node_tok(p1, i)).kind is ContentTag || node_tok(
            p1,
            i,
        ).kind is EmptyTag) implies p1[i].children@.len() == 0 by {
        if i < p0.len() {
            if i != parent {
                assert(p1[i] == p0[i]);
            }
        }
    }
}

/// Rendering and subtree size depend only on the nodes at or after the
/// rendered index: two pools that agree from `x` on agree on `x`'s
/// rendering.
proof fn lemma_render_frame(
    pa: Seq<NaryNode<XmlToken>>,
    pb: Seq<NaryNode<XmlToken>>,
    x: int,
    trim: bool,
)
    requires
        nodes_closed(pa),
        nodes_closed(pb),
        0 <= x < pa.len(),
        pa.len() <= pb.len(),
        forall|i: int| x <= i < pa.len() ==> pb[i] == pa[i],
    ensures
        render_node(pb, x, trim) == render_node(pa, x, trim),
        subtree_count(pb, x) == subtree_count(pa, x),
    decreases pa.len() - x, pa[x].children@.len() + 1,
{
    lemma_render_frame_kids(pa, pb, x, 0, trim);
}

proof fn lemma_render_frame_kids(
    pa: Seq<NaryNode<XmlToken>>,
    pb: Seq<NaryNode<XmlToken>>,
    x: int,
    i: int,
    trim: bool,
)
    requires
        nodes_closed(pa),
        nodes_closed(pb),
        0 <= x < pa.len(),
        pa.len() <= pb.len(),
        forall|j: int| x <= j < pa.len() ==> pb[j] == pa[j],
        0 <= i <= pa[x].children@.len(),
    ensures
        render_kids(pb, x, i, trim) == render_kids(pa, x, i, trim),
        kids_count(pb, x, i) == kids_count(pa, x, i),
    decreases pa.len() - x, pa[x].children@.len() - i,
{
    if i < pa[x].children@.len() {
        let c = pa[x].children@[i] as int;
        lemma_render_frame(pa, pb, c, trim);
        lemma_render_frame_kids(pa, pb, x, i + 1, trim);
    }
}

/// Two nodes with the same token and pointwise render-equal children
/// render identically.
proof fn lemma_kids_pointwise(
    pd: Seq<NaryNode<XmlToken>>,
    d: int,
    ps: Seq<NaryNode<XmlToken>>,
    s: int,
    i: int,
    trim: bool,
)
    requires
        nodes_closed(pd),
        nodes_closed(ps),
        0 <= d < pd.len(),
        0 <= s < ps.len(),
        pd[d].children@.len() == ps[s].children@.len(),
        forall|j: int|
            0 <= j < pd[d].children@.len() ==> render_node(
                pd,
                (#[trigger] pd[d].children@[j]) as int,
                trim,
            ) == render_node(ps, ps[s].children@[j] as int, trim),
        0 <= i <= pd[d].children@.len(),
    ensures
        render_kids(pd, d, i, trim) == render_kids(ps, s, i, trim),
    decreases pd[d].children@.len() - i,
{
    if i < pd[d].children@.len() {
        lemma_kids_pointwise(pd, d, ps, s, i + 1, trim);
    }
}

/// A node whose token view equals another's and whose children render
/// pointwise the same renders the same text.
proof fn lemma_render_same_shape(
    pd: Seq<NaryNode<XmlToken>>,
    d: int,
    ps: Seq<NaryNode<XmlToken>>,
    s: int,
    trim: bool,
)
    requires
        nodes_closed(pd),
        nodes_closed(ps),
        0 <= d < pd.len(),
        0 <= s < ps.len(),
        node_tok(pd, d) == node_tok(ps, s),
        pd[d].data is Some,
        ps[s].data is Some,
        pd[d].children@.len() == ps[s].children@.len(),
        forall|j: int|
            0 <= j < pd[d].children@.len() ==> render_node(
                pd,
                (#[trigger] pd[d].children@[j]) as int,
                trim,
            ) == render_node(ps, ps[s].children@[j] as int, trim),
    ensures
        render_node(pd, d, trim) == render_node(ps, s, trim),
{
    lemma_kids_pointwise(pd, d, ps, s, 0, trim);
}

/// Appending one more child under `p` renders the old child list first
/// and the new child's text last.
proof fn lemma_kids_extended(
    pa: Seq<NaryNode<XmlToken>>,
    pb: Seq<NaryNode<XmlToken>>,
    p: int,
    c: int,
    i: int,
    trim: bool,
)
    requires
        nodes_closed(pa),
        nodes_closed(pb),
        pa.len() == pb.len(),
        pa.len() <= 0xFFFF_FFFF,
        0 <= p < pa.len(),
        p < c < pa.len(),
        forall|j: int| 0 <= j < pa.len() && j != p ==> pb[j] == pa[j],
        pb[p].data == pa[p].data,
        pb[p].children@ == pa[p].children@.push(c as u32),
        0 <= i <= pa[p].children@.len(),
    ensures
        render_kids(pb, p, i, trim) == render_kids(pa, p, i, trim) + render_node(pa, c, trim),
    decreases pa[p].children@.len() - i,
{
    if i == pa[p].children@.len() {
        assert((pb[p].children@[i]) as int == c);
        lemma_render_frame(pa, pb, c, trim);
        assert(render_kids(pb, p, i + 1, trim) == Seq::<char>::empty());
        assert(render_kids(pb, p, i, trim) =~= render_kids(pa, p, i, trim) + render_node(
            pa,
            c,
            trim,
        ));
    } else {
        let x = pa[p].children@[i] as int;
        assert(pb[p].children@[i] == pa[p].children@[i]);
        lemma_render_frame(pa, pb, x, trim);
        lemma_kids_extended(pa, pb, p, c, i + 1, trim);
        assert(render_kids(pb, p, i, trim) =~= render_kids(pa, p, i, trim) + render_node(
            pa,
            c,
            trim,
        ));
    }
}

/// Grafting law: after a subtree rooted at `c` is attached as one more
/// child of the open-tag node `p`, the subtree of `p` renders as it did
/// before, with `c`'s rendering inserted just before `p`'s closing tag
/// text, and `c`'s text itself appears verbatim.
pub proof fn lemma_graft_render(
    pa: Seq<NaryNode<XmlToken>>,
    pb: Seq<NaryNode<XmlToken>>,
    p: int,
    c: int,
    trim: bool,
)
    requires
        nodes_closed(pa),
        nodes_closed(pb),
        pa.len() == pb.len(),
        pa.len() <= 0xFFFF_FFFF,
        0 <= p < pa.len(),
        p < c < pa.len(),
        forall|i: int| 0 <= i < pa.len() && i != p ==> pb[i] == pa[i],
        pb[p].data == pa[p].data,
        pb[p].children@ == pa[p].children@.push(c as u32),
        pa[p].data is Some,
        node_tok(pa, p).kind is OpenTag,
    ensures
        ({
            let pre = open_text(node_tok(pa, p), trim) + render_kids(pa, p, 0, trim);
            let suf = close_text(node_tok(pa, p), trim);
            render_node(pb, p, trim) == pre + render_node(pa, c, trim) + suf && render_node(
                pa,
                p,
                trim,
            ) == pre + suf
        }),
{
    lemma_kids_extended(pa, pb, p, c, 0, trim);
    let pre = open_text(node_tok(pa, p), trim) + render_kids(pa, p, 0, trim);
    let suf = close_text(node_tok(pa, p), trim);
    assert(render_node(pb, p, trim) =~= pre + render_node(pa, c, trim) + suf);
    assert(render_node(pa, p, trim) =~= pre + suf);
}

/// The number of tokens after the root, among the first `n`, that are
/// not close tags; the parser allocates a node for each of them.
pub open spec fn nonclose_in_prefix(ts: Seq<XmlTokenView>, n: int) -> nat
    decreases n,
    when 1 <= n <= ts.len()
{
    if n <= 1 {
        0
    } else {
        nonclose_in_prefix(ts, n - 1) + (if ts[n - 1].kind is CloseTag {
            0nat
        } else {
            1nat
        })
    }
}

/// Structural comparison of two errors by variant and message text.
pub open spec fn err_matches(a: XMLErrorKind, b: XMLErrorKind) -> bool {
    match (a, b) {
        (XMLErrorKind::TokenizerErr(x), XMLErrorKind::TokenizerErr(y)) => x@ == y@,
        (XMLErrorKind::ParserErr(x), XMLErrorKind::ParserErr(y)) => x@ == y@,
        _ => false,
    }
}

/// One node of the specification-level parse: its token view and the
/// indices of its children, in order.
#[verifier::ext_equal]
pub struct XmlNodeModel {
    pub tok: XmlTokenView,
    pub children: Seq<int>,
}

/// Allocates a node holding `tok` and attaches it as the last child of
/// `parent` (specification level).
pub open spec fn model_attach(pool: Seq<XmlNodeModel>, parent: int, tok: XmlTokenView) -> Seq<
    XmlNodeModel,
> {
    pool.update(
        parent,
        XmlNodeModel { tok: pool[parent].tok, children: pool[parent].children.push(pool.len() as int) },
    ).push(XmlNodeModel { tok, children: Seq::empty() })
}

/// The whole behaviour of the parser after the root is seeded, one
/// token per step: open tags allocate, attach and push; close tags
/// must match the top's name and pop; content and empty tags attach as
/// leaves; the stack must never run dry before the end and must be
/// empty at it.
pub open spec fn xml_parse_step(
    ts: Seq<XmlTokenView>,
    k: int,
    pool: Seq<XmlNodeModel>,
    stack: Seq<int>,
) -> Result<Seq<XmlNodeModel>, XMLErrorKind>
    decreases ts.len() - k,
    when 1 <= k
{
    if k >= ts.len() {
        if stack.len() == 0 {
            Ok(pool)
        } else {
            Err(XMLErrorKind::ParserErr("Opening tags do not match close tags"))
        }
    } else if stack.len() == 0 {
        Err(XMLErrorKind::ParserErr("Extra Tag"))
    } else {
        let top = stack[stack.len() - 1];
        let t = ts[k];
        match t.kind {
            XmlTokenKind::OpenTag => xml_parse_step(
                ts,
                k + 1,
                model_attach(pool, top, t),
                stack.push(pool.len() as int),
            ),
            XmlTokenKind::CloseTag => if pool[top].tok.content == t.content {
                xml_parse_step(ts, k + 1, pool, stack.drop_last())
            } else {
                Err(XMLErrorKind::ParserErr("Tags mismatch"))
            },
            XmlTokenKind::ContentTag => xml_parse_step(
                ts,
                k + 1,
                model_attach(pool, top, t),
                stack,
            ),
            XmlTokenKind::EmptyTag => xml_parse_step(
                ts,
                k + 1,
                model_attach(pool, top, t),
                stack,
            ),
            _ => xml_parse_step(ts, k + 1, pool, stack),
        }
    }
}

/// The tree the parser owes for a given token stream, or the error it
/// owes: the first token seeds the root unconditionally, the rest run
/// through `xml_parse_step`; an empty stream cannot open and close a
/// root.
pub open spec fn xml_parse_spec(ts: Seq<XmlTokenView>) -> Result<Seq<XmlNodeModel>, XMLErrorKind> {
    if ts.len() == 0 {
        Err(XMLErrorKind::ParserErr("Opening tags do not match close tags"))
    } else {
        xml_parse_step(ts, 1, seq![XmlNodeModel { tok: ts[0], children: Seq::empty() }], seq![0int])
    }
}

/// The specification-level value of an arena pool: each node's token
/// view and child indices.
pub open spec fn pool_model(pool: Seq<NaryNode<XmlToken>>) -> Seq<XmlNodeModel> {
    Seq::new(
        pool.len(),
        |i: int|
            XmlNodeModel {
                tok: node_tok(pool, i),
                children: Seq::new(pool[i].children@.len(), |j: int| pool[i].children@[j] as int),
            },
    )
}

/// Allocating a token node and attaching it under `parent` takes the
/// pool's model through `model_attach`.
proof fn lemma_pool_model_attach(
    p0: Seq<NaryNode<XmlToken>>,
    p1: Seq<NaryNode<XmlToken>>,
    parent: int,
    ctok: XmlTokenView,
)
    requires
        p1.len() == p0.len() + 1,
        p0.len() < 0xFFFF_FFFF,
        0 <= parent < p0.len(),
        forall|i: int| 0 <= i < p0.len() && i != parent ==> p1[i] == p0[i],
        p1[parent].data == p0[parent].data,
        p1[parent].children@ == p0[parent].children@.push(p0.len() as u32),
        node_tok(p1, p0.len() as int) == ctok,
        p1[p0.len() as int].children@.len() == 0,
    ensures
        pool_model(p1) == model_attach(pool_model(p0), parent, ctok),
{
    let m0 = pool_model(p0);
    let m1 = pool_model(p1);
    let ma = model_attach(m0, parent, ctok);
    assert forall|i: int| 0 <= i < m1.len() implies m1[i] =~~= ma[i] by {
        if i < p0.len() {
            if i != parent {
                assert(p1[i] == p0[i]);
            } else {
                assert(m1[i].tok == m0[i].tok);
                assert forall|j: int| 0 <= j < p1[i].children@.len() implies m1[i].children[j]
                    == ma[i].children[j] by {
                    if j < p0[parent].children@.len() {
                        assert(p1[parent].children@[j] == p0[parent].children@[j]);
                    } else {
                        assert(p1[parent].children@[j] == p0.len() as u32);
                    }
                }
            }
        }
    }
    assert(m1 =~~= ma);
}

/// The subtree of `dst` rooted at `d` is a node-for-node copy of the
/// subtree of `src` rooted at `s`: equal tokens, equally many children,
/// each child a copy of its counterpart, in order.
pub open spec fn copies(
    dst: Seq<NaryNode<XmlToken>>,
    d: int,
    src: Seq<NaryNode<XmlToken>>,
    s: int,
) -> bool
    decreases src.len() - s, src[s].children@.len() + 1,
    when 0 <= s < src.len() && nodes_closed(src)
{
    &&& 0 <= d < dst.len()
    &&& node_tok(dst, d) == node_tok(src, s)
    &&& dst[d].children@.len() == src[s].children@.len()
    &&& copies_kids(dst, d, src, s, 0)
}

/// The children from position `i` on are pairwise copies.
pub open spec fn copies_kids(
    dst: Seq<NaryNode<XmlToken>>,
    d: int,
    src: Seq<NaryNode<XmlToken>>,
    s: int,
    i: int,
) -> bool
    decreases src.len() - s, src[s].children@.len() - i,
    when 0 <= s < src.len() && 0 <= i <= src[s].children@.len() && nodes_closed(src)
{
    if i >= src[s].children@.len() {
        true
    } else {
        copies(dst, (dst[d].children@[i]) as int, src, (src[s].children@[i]) as int)
            && copies_kids(dst, d, src, s, i + 1)
    }
}

/// Being a copy depends only on the destination nodes at or after the
/// copy's root: extending the pool or changing earlier nodes keeps it.
proof fn lemma_copies_frame(
    da: Seq<NaryNode<XmlToken>>,
    db: Seq<NaryNode<XmlToken>>,
    x: int,
    src: Seq<NaryNode<XmlToken>>,
    s: int,
)
    requires
        nodes_closed(src),
        0 <= s < src.len(),
        nodes_closed(da),
        0 <= x < da.len(),
        da.len() <= db.len(),
        forall|i: int| x <= i < da.len() ==> db[i] == da[i],
        copies(da, x, src, s),
    ensures
        copies(db, x, src, s),
    decreases src.len() - s, src[s].children@.len() + 1,
{
    lemma_copies_frame_kids(da, db, x, src, s, 0);
}

proof fn lemma_copies_frame_kids(
    da: Seq<NaryNode<XmlToken>>,
    db: Seq<NaryNode<XmlToken>>,
    x: int,
    src: Seq<NaryNode<XmlToken>>,
    s: int,
    i: int,
)
    requires
        nodes_closed(src),
        0 <= s < src.len(),
        nodes_closed(da),
        0 <= x < da.len(),
        da.len() <= db.len(),
        forall|j: int| x <= j < da.len() ==> db[j] == da[j],
        0 <= i <= src[s].children@.len(),
        da[x].children@.len() == src[s].children@.len(),
        copies_kids(da, x, src, s, i),
    ensures
        copies_kids(db, x, src, s, i),
    decreases src.len() - s, src[s].children@.len() - i,
{
    if i < src[s].children@.len() {
        let dc = (da[x].children@[i]) as int;
        let sc = (src[s].children@[i]) as int;
        lemma_copies_frame(da, db, dc, src, sc);
        lemma_copies_frame_kids(da, db, x, src, s, i + 1);
        assert(db[x] == da[x]);
    }
}

/// Pairwise-copied children make the whole child list copied.
proof fn lemma_copies_kids_pointwise(
    dst: Seq<NaryNode<XmlToken>>,
    d: int,
    src: Seq<NaryNode<XmlToken>>,
    s: int,
    i: int,
)
    requires
        nodes_closed(src),
        0 <= s < src.len(),
        0 <= d < dst.len(),
        dst[d].children@.len() == src[s].children@.len(),
        forall|j: int|
            0 <= j < src[s].children@.len() ==> copies(
                dst,
                (#[trigger] dst[d].children@[j]) as int,
                src,
                (src[s].children@[j]) as int,
            ),
        0 <= i <= src[s].children@.len(),
    ensures
        copies_kids(dst, d, src, s, i),
    decreases src[s].children@.len() - i,
{
    if i < src[s].children@.len() {
        lemma_copies_kids_pointwise(dst, d, src, s, i + 1);
    }
}

/// The tagged-grammar parser: a lexer plus the arena forest the parser
/// builds.
pub struct XmlParser {
    pub lexer: XmlLexer,
    pub ast: NaryForest<XmlToken>,
}

/// A parse tree of the tagged grammar, ready for rendering or grafting.
pub struct XmlAst {
    pub ast: NaryForest<XmlToken>,
}

/// Everything rendering and grafting rely on: child links in bounds and
/// pointing forward, a token in every node, and every root index valid.
pub open spec fn xml_forest_wf(f: NaryForest<XmlToken>) -> bool {
    &&& nodes_closed(f.pool@)
    &&& nodes_all_some(f.pool@)
    &&& f.pool@.len() <= NULL
    &&& (forall|r: int|
        0 <= r < f.root_list@.len() ==> ((#[trigger] f.root_list@[r]) as int) < f.pool@.len())
}

impl XmlParser {
    /// A fresh parser with an empty token stream and an empty forest.
    pub fn new() -> (p: XmlParser)
        ensures
            p.lexer.tokens@.len() == 0,
            p.ast.pool@.len() == 0,
            p.ast.root_list@.len() == 0,
    {
        XmlParser { lexer: XmlLexer::new(), ast: NaryForest::new() }
    }

    /// Lexes and parses tagged text, building the tree with an explicit
    /// stack of open-tag nodes.
    ///
    /// The first token becomes the root.  A close tag must match the
    /// open tag on top of the stack; at the end of input the stack must
    /// be empty, and the root index is pushed onto the forest's root
    /// list.  The result, the chosen error, and the tree are exactly
    /// what the specification-level scan `xml_lex_from` and parse
    /// `xml_parse_spec` yield on the text.  On success the forest is
    /// well formed, no node below the root is a close tag, and
    /// non-root content and empty-tag nodes are leaves.
    pub fn parse(&mut self, src: &String) -> (r: Result<(), XMLErrorKind>)
        requires
            old(self).lexer.tokens@.len() == 0,
            old(self).ast.pool@.len() == 0,
            old(self).ast.root_list@.len() == 0,
            src@.len() < 0xFFFF_FFFF,
        ensures
            ({
                let scan = xml_lex_from(
                    src@,
                    0,
                    XmlTokenKind::AuxUnknown,
                    Seq::empty(),
                    Seq::empty(),
                    Seq::empty(),
                );
                match scan {
                    Err(e) => r matches Err(e2) && err_matches(e2, e),
                    Ok(ts) => match xml_parse_spec(ts) {
                        Ok(mp) => r is Ok && pool_model(final(self).ast.pool@) == mp && ts.len()
                            > 0 && node_tok(final(self).ast.pool@, 0) == ts[0] && final(self).ast.pool@.len() == 1 + nonclose_in_prefix(ts, ts.len() as int),
                        Err(e) => r matches Err(e2) && err_matches(e2, e),
                    },
                }
            }),
            r is Ok ==> xml_forest_wf(final(self).ast),
            r is Ok ==> final(self).ast.pool@.len() >= 1 && final(self).ast.pool@.len()
                <= src@.len(),
            r is Ok ==> final(self).ast.root_list@ == seq![0u32],
            r is Ok ==> final(self).lexer.tokens@.len() == 0,
            r is Ok ==> forall|i: int|
                0 <= i < final(self).ast.pool@.len() ==> {
                    let k = (#[trigger] node_tok(final(self).ast.pool@, i)).kind;
                    k is OpenTag || k is CloseTag || k is EmptyTag || k is ContentTag
                },
            r is Ok ==> forall|i: int|
                1 <= i < final(self).ast.pool@.len() ==> !((#[trigger] node_tok(
                    final(self).ast.pool@,
                    i,
                )).kind is CloseTag),
            r is Ok ==> forall|i: int|
                1 <= i < final(self).ast.pool@.len() && ((#[trigger] node_tok(
                    final(self).ast.pool@,
                    i,
                )).kind is ContentTag || node_tok(final(self).ast.pool@, i).kind is EmptyTag)
                    ==> final(self).ast.pool@[i].children@.len() == 0,
            r is Ok ==> forall|i: int|
                0 <= i < final(self).ast.pool@.len() ==> (#[trigger] node_tok(
                    final(self).ast.pool@,
                    i,
                )).content.len() > 0 && !all_whitespace(node_tok(final(self).ast.pool@, i).content),
    {
        match self.lexer.lex(src.as_str()) {
            Err(e) => {
                return Err(e);
            },
            Ok(()) => {},
        }
        if self.lexer.tokens.len() == 0 {
            // an input with no tags yields no tokens: nothing can open
            // and close a root
            return Err(XMLErrorKind::ParserErr("Opening tags do not match close tags"));
        }
        let ghost toks = self.lexer.tokens@;
        let ghost tviews = tokens_views(toks);

        let root_token = self.lexer.tokens[0].duplicate();
        let root_node_ptr = self.ast.allocate(root_token);
        let mut ast_stack: Vec<Pointer> = Vec::new();
        ast_stack.push(root_node_ptr);
        proof {
            assert(pool_model(self.ast.pool@) =~~= seq![
                XmlNodeModel { tok: tviews[0], children: Seq::empty() },
            ]);
            assert(stack_model(ast_stack@) =~= seq![0int]);
        }

        let mut k: usize = 1;
        while k < self.lexer.tokens.len()
            invariant
                self.lexer.tokens@ == toks,
                tviews == tokens_views(toks),
                tviews.len() == toks.len(),
                xml_lex_from(
                    src@,
                    0,
                    XmlTokenKind::AuxUnknown,
                    Seq::empty(),
                    Seq::empty(),
                    Seq::empty(),
                ) == Ok::<Seq<XmlTokenView>, XMLErrorKind>(tviews),
                lexed_tokens_wf(toks),
                xml_parse_spec(tviews) == xml_parse_step(
                    tviews,
                    k as int,
                    pool_model(self.ast.pool@),
                    stack_model(ast_stack@),
                ),
                self.ast.pool@.len() == 1 + nonclose_in_prefix(tviews, k as int),
                node_tok(self.ast.pool@, 0) == tviews[0],
                toks.len() <= src@.len(),
                src@.len() < 0xFFFF_FFFF,
                1 <= k <= toks.len(),
                nodes_closed(self.ast.pool@),
                nodes_all_some(self.ast.pool@),
                1 <= self.ast.pool@.len() <= k,
                self.ast.root_list@.len() == 0,
                root_node_ptr == 0,
                forall|i: int|
                    0 <= i < self.ast.pool@.len() ==> {
                        let kd = (#[trigger] node_tok(self.ast.pool@, i)).kind;
                        kd is OpenTag || kd is CloseTag || kd is EmptyTag || kd is ContentTag
                    },
                forall|i: int|
                    1 <= i < self.ast.pool@.len() ==> !((#[trigger] node_tok(
                        self.ast.pool@,
                        i,
                    )).kind is CloseTag),
                forall|i: int|
                    0 <= i < self.ast.pool@.len() ==> (#[trigger] node_tok(
                        self.ast.pool@,
                        i,
                    )).content.len() > 0 && !all_whitespace(node_tok(self.ast.pool@, i).content),
                forall|s: int|
                    0 <= s < ast_stack@.len() ==> ((#[trigger] ast_stack@[s]) as int)
                        < self.ast.pool@.len(),
                forall|s1: int, s2: int|
                    0 <= s1 < s2 < ast_stack@.len() ==> ast_stack@[s1] < ast_stack@[s2],
                forall|s: int|
                    0 <= s < ast_stack@.len() ==> (ast_stack@[s] == 0 || node_tok(
                        self.ast.pool@,
                        (#[trigger] ast_stack@[s]) as int,
                    ).kind is OpenTag),
                forall|i: int|
                    1 <= i < self.ast.pool@.len() && ((#[trigger] node_tok(
                        self.ast.pool@,
                        i,
                    )).kind is ContentTag || node_tok(self.ast.pool@, i).kind is EmptyTag)
                        ==> self.ast.pool@[i].children@.len() == 0,
            decreases toks.len() - k,
        {
            let ghost pool0 = self.ast.pool@;
            let ghost pm0 = pool_model(pool0);
            let ghost sm0 = stack_model(ast_stack@);
            let ghost k0 = k as int;
            let current_token = self.lexer.tokens[k].duplicate();
            let ghost ctok = current_token@;
            k = k + 1;
            proof {
                assert(ctok == tviews[k0]);
            }
            if ast_stack.len() > 0 {
                let parent_ptr = ast_stack[ast_stack.len() - 1];
                match current_token.token_kind {
                    XmlTokenKind::OpenTag => {
                        let node_ptr = self.ast.allocate(current_token);
                        self.ast.add_child(parent_ptr, node_ptr);
                        proof {
                            lemma_attach_preserves(
                                pool0,
                                self.ast.pool@,
                                parent_ptr as int,
                                node_ptr as int,
                                ctok,
                            );
                            lemma_pool_model_attach(
                                pool0,
                                self.ast.pool@,
                                parent_ptr as int,
                                ctok,
                            );
                        }
                        ast_stack.push(node_ptr);
                        proof {
                            assert(sm0[sm0.len() - 1] == parent_ptr as int);
                            assert(stack_model(ast_stack@) =~= sm0.push(node_ptr as int));
                            assert(xml_parse_step(tviews, k0, pm0, sm0) == xml_parse_step(
                                tviews,
                                k0 + 1,
                                pool_model(self.ast.pool@),
                                stack_model(ast_stack@),
                            ));
                        }
                    },
                    XmlTokenKind::CloseTag => {
                        let names_match = str_eq(
                            self.ast.node(parent_ptr).data.as_ref().unwrap().content.as_str(),
                            current_token.content.as_str(),
                        );
                        proof {
                            assert(names_match == (pm0[parent_ptr as int].tok.content
                                == tviews[k0].content));
                        }
                        if !names_match {
                            proof {
                                assert(xml_parse_step(tviews, k0, pm0, sm0) == Err::<
                                    Seq<XmlNodeModel>,
                                    XMLErrorKind,
                                >(XMLErrorKind::ParserErr("Tags mismatch")));
                            }
                            return Err(XMLErrorKind::ParserErr("Tags mismatch"));
                        }
                        if ast_stack.pop().is_none() {
                            return Err(XMLErrorKind::ParserErr("Close Tag without Opening Tag"));
                        }
                        proof {
                            assert(stack_model(ast_stack@) =~= sm0.drop_last());
                            assert(xml_parse_step(tviews, k0, pm0, sm0) == xml_parse_step(
                                tviews,
                                k0 + 1,
                                pm0,
                                sm0.drop_last(),
                            ));
                        }
                    },
                    XmlTokenKind::ContentTag => {
                        let node_ptr = self.ast.allocate(current_token);
                        self.ast.add_child(parent_ptr, node_ptr);
                        proof {
                            lemma_attach_preserves(
                                pool0,
                                self.ast.pool@,
                                parent_ptr as int,
                                node_ptr as int,
                                ctok,
                            );
                            lemma_pool_model_attach(
                                pool0,
                                self.ast.pool@,
                                parent_ptr as int,
                                ctok,
                            );
                            assert(sm0[sm0.len() - 1] == parent_ptr as int);
                            assert(xml_parse_step(tviews, k0, pm0, sm0) == xml_parse_step(
                                tviews,
                                k0 + 1,
                                pool_model(self.ast.pool@),
                                sm0,
                            ));
                        }
                    },
                    XmlTokenKind::EmptyTag => {
                        let node_ptr = self.ast.allocate(current_token);
                        self.ast.add_child(parent_ptr, node_ptr);
                        proof {
                            lemma_attach_preserves(
                                pool0,
                                self.ast.pool@,
                                parent_ptr as int,
                                node_ptr as int,
                                ctok,
                            );
                            lemma_pool_model_attach(
                                pool0,
                                self.ast.pool@,
                                parent_ptr as int,
                                ctok,
                            );
                            assert(sm0[sm0.len() - 1] == parent_ptr as int);
                            assert(xml_parse_step(tviews, k0, pm0, sm0) == xml_parse_step(
                                tviews,
                                k0 + 1,
                                pool_model(self.ast.pool@),
                                sm0,
                            ));
                        }
                    },
                    _ => {},
                }
            } else {
                proof {
                    assert(sm0.len() == 0);
                    assert(xml_parse_step(tviews, k0, pm0, sm0) == Err::<
                        Seq<XmlNodeModel>,
                        XMLErrorKind,
                    >(XMLErrorKind::ParserErr("Extra Tag")));
                }
                return Err(XMLErrorKind::ParserErr("Extra Tag"));
            }
        }
        proof {
            assert(k == toks.len());
            assert(xml_parse_step(
                tviews,
                k as int,
                pool_model(self.ast.pool@),
                stack_model(ast_stack@),
            ) == if stack_model(ast_stack@).len() == 0 {
                Ok::<Seq<XmlNodeModel>, XMLErrorKind>(pool_model(self.ast.pool@))
            } else {
                Err(XMLErrorKind::ParserErr("Opening tags do not match close tags"))
            });
        }
        if ast_stack.len() != 0 {
            return Err(XMLErrorKind::ParserErr("Opening tags do not match close tags"));
        }
        self.lexer.tokens = Vec::new();
        self.ast.root_list.push(root_node_ptr);
        proof {
            assert(self.ast.root_list@ =~= seq![0u32]);
        }
        Ok(())
    }

    /// Hands the finished tree over, dropping the lexer.
    pub fn into_ast(self) -> (r: XmlAst)
        ensures
            r.ast == self.ast,
    {
        XmlAst { ast: self.ast }
    }
}

/// Appends the rendered attribute list of a token to the output.
fn render_attribs(attribs: &Vec<(String, String)>, xml_stream: &mut String, trim: bool)
    ensures
        final(xml_stream)@ == old(xml_stream)@ + render_attrs(
            crate::xml::lexer::attribs_view(attribs@),
            0,
            trim,
        ),
{
    proof {
        reveal_strlit(" ");
        reveal_strlit("=\"");
        reveal_strlit("\"");
    }
    let ghost av = crate::xml::lexer::attribs_view(attribs@);
    let mut j: usize = 0;
    while j < attribs.len()
        invariant
            j <= attribs@.len(),
            av == crate::xml::lexer::attribs_view(attribs@),
            " "@ == seq![' '],
            "=\""@ == seq!['=', '"'],
            "\""@ == seq!['"'],
            xml_stream@ + render_attrs(av, j as int, trim) == old(xml_stream)@ + render_attrs(
                av,
                0,
                trim,
            ),
        decreases attribs@.len() - j,
    {
        let ghost prev = xml_stream@;
        xml_stream.append(" ");
        if trim {
            let k = trim_string(&attribs[j].0);
            xml_stream.append(k.as_str());
        } else {
            xml_stream.append(attribs[j].0.as_str());
        }
        xml_stream.append("=\"");
        if trim {
            let v = trim_string(&attribs[j].1);
            xml_stream.append(v.as_str());
        } else {
            xml_stream.append(attribs[j].1.as_str());
        }
        xml_stream.append("\"");
        proof {
            assert(av[j as int] == (attribs@[j as int].0@, attribs@[j as int].1@));
            assert(xml_stream@ =~= prev + render_attr(av[j as int], trim));
            assert(render_attrs(av, j as int, trim) == render_attr(av[j as int], trim)
                + render_attrs(av, j + 1, trim));
            assert(xml_stream@ + render_attrs(av, j + 1, trim) =~= prev + render_attrs(
                av,
                j as int,
                trim,
            ));
        }
        j = j + 1;
    }
    proof {
        assert(render_attrs(av, attribs@.len() as int, trim) == Seq::<char>::empty());
        assert(final(xml_stream)@ =~= old(xml_stream)@ + render_attrs(av, 0, trim));
    }
}

impl XmlAst {
    /// Everything rendering and grafting rely on: a well-formed forest.
    pub open spec fn wf(&self) -> bool {
        xml_forest_wf(self.ast)
    }

    /// Converts the first tree of the forest back to tagged text,
    /// spacing intact.
    pub fn to_xml(&self) -> (xml: String)
        requires
            self.wf(),
        ensures
            self.ast.root_list@.len() > 0 ==> xml@ == render_node(
                self.ast.pool@,
                self.ast.root_list@[0] as int,
                false,
            ),
            self.ast.root_list@.len() == 0 ==> xml@ == Seq::<char>::empty(),
    {
        let mut xml = String::new();
        if self.ast.root_list.len() > 0 {
            let root = self.ast.root_list[0];
            self.to_xml_helper(root, &mut xml, false);
        }
        xml
    }

    /// Like `to_xml`, but strips leading and trailing whitespace from
    /// tag names, attribute keys and values, and content text.
    pub fn to_xml_trim(&self) -> (xml: String)
        requires
            self.wf(),
        ensures
            self.ast.root_list@.len() > 0 ==> xml@ == render_node(
                self.ast.pool@,
                self.ast.root_list@[0] as int,
                true,
            ),
            self.ast.root_list@.len() == 0 ==> xml@ == Seq::<char>::empty(),
    {
        let mut xml = String::new();
        if self.ast.root_list.len() > 0 {
            let root = self.ast.root_list[0];
            self.to_xml_helper(root, &mut xml, true);
        }
        xml
    }

    /// Clones the first tree of `tree` into `self`'s arena, node by
    /// node, and returns the copied root's index in `self`'s memory.
    /// The copy is detached: nothing in `self` points at it yet, the
    /// nodes that existed before are untouched, the copy is a
    /// token-for-token image of the source subtree, and it renders
    /// exactly as the source tree does, in both rendering modes.
    pub fn clone_tree(&mut self, tree: &XmlAst) -> (r: Pointer)
        requires
            old(self).wf(),
            tree.wf(),
            tree.ast.root_list@.len() > 0,
            old(self).ast.pool@.len() + subtree_count(
                tree.ast.pool@,
                tree.ast.root_list@[0] as int,
            ) <= NULL,
        ensures
            final(self).wf(),
            final(self).ast.root_list == old(self).ast.root_list,
            forall|i: int|
                0 <= i < old(self).ast.pool@.len() ==> final(self).ast.pool@[i] == old(self).ast.pool@[i],
            final(self).ast.pool@.len() == old(self).ast.pool@.len() + subtree_count(
                tree.ast.pool@,
                tree.ast.root_list@[0] as int,
            ),
            r as int == old(self).ast.pool@.len(),
            copies(final(self).ast.pool@, r as int, tree.ast.pool@, tree.ast.root_list@[0] as int),
            forall|b: bool|
                #[trigger] render_node(final(self).ast.pool@, r as int, b) == render_node(
                    tree.ast.pool@,
                    tree.ast.root_list@[0] as int,
                    b,
                ),
    {
        let root = tree.ast.root_list[0];
        self.clone_tree_helper(tree, NULL, root)
    }

    /// Copies the subtree of `other_tree` rooted at `other_node` into
    /// `self`'s arena and, when `other_parent` names a node of `self`,
    /// attaches the copied root under it.
    fn clone_tree_helper(
        &mut self,
        other_tree: &XmlAst,
        other_parent: Pointer,
        other_node: Pointer,
    ) -> (r: Pointer)
        requires
            old(self).wf(),
            other_tree.wf(),
            other_node == NULL || other_node < other_tree.ast.pool@.len(),
            other_parent == NULL || other_parent < old(self).ast.pool@.len(),
            other_node != NULL ==> old(self).ast.pool@.len() + subtree_count(
                other_tree.ast.pool@,
                other_node as int,
            ) <= NULL,
        ensures
            final(self).wf(),
            final(self).ast.root_list == old(self).ast.root_list,
            other_node == NULL ==> r == NULL && final(self).ast == old(self).ast,
            other_node != NULL ==> {
                &&& r as int == old(self).ast.pool@.len()
                &&& r < NULL
                &&& final(self).ast.pool@.len() == old(self).ast.pool@.len() + subtree_count(
                    other_tree.ast.pool@,
                    other_node as int,
                )
                &&& (forall|i: int|
                    0 <= i < old(self).ast.pool@.len() && i != other_parent as int ==> final(self).ast.pool@[i] == old(self).ast.pool@[i])
                &&& (other_parent != NULL ==> final(self).ast.pool@[other_parent as int].data
                    == old(self).ast.pool@[other_parent as int].data && final(self).ast.pool@[other_parent as int].children@ == old(self).ast.pool@[other_parent as int].children@.push(r))
                &&& copies(
                    final(self).ast.pool@,
                    r as int,
                    other_tree.ast.pool@,
                    other_node as int,
                )
                &&& (forall|b: bool|
                    #[trigger] render_node(final(self).ast.pool@, r as int, b) == render_node(
                        other_tree.ast.pool@,
                        other_node as int,
                        b,
                    ))
            },
        decreases other_tree.ast.pool@.len() - other_node,
    {
        if other_node == NULL {
            return NULL;
        }
        let ghost pool0 = self.ast.pool@;
        let ghost opool = other_tree.ast.pool@;
        let cloned_other_node_ptr = self.clone_node(other_tree, other_node);

        if other_parent != NULL {
            self.ast.add_child(other_parent, cloned_other_node_ptr);
        }
        let ghost pool1 = self.ast.pool@;

        let num_children = other_tree.ast.node(other_node).children.len();
        let mut ci: usize = 0;
        while ci < num_children
            invariant
                other_tree.wf(),
                opool == other_tree.ast.pool@,
                other_node < opool.len(),
                num_children == opool[other_node as int].children@.len(),
                ci <= num_children,
                pool0 == old(self).ast.pool@,
                opool.len() <= NULL,
                other_parent == NULL || (other_parent as int) < pool0.len(),
                pool0.len() + subtree_count(opool, other_node as int) <= NULL,
                cloned_other_node_ptr as int == pool0.len(),
                cloned_other_node_ptr < NULL,
                self.wf(),
                self.ast.root_list == old(self).ast.root_list,
                pool0.len() < self.ast.pool@.len(),
                forall|i: int|
                    0 <= i < pool0.len() && i != other_parent as int ==> self.ast.pool@[i]
                        == pool0[i],
                other_parent != NULL ==> self.ast.pool@[other_parent as int].data
                    == pool0[other_parent as int].data && self.ast.pool@[other_parent as int].children@
                    == pool0[other_parent as int].children@.push(cloned_other_node_ptr),
                self.ast.pool@[cloned_other_node_ptr as int].data is Some,
                node_tok(self.ast.pool@, cloned_other_node_ptr as int) == node_tok(
                    opool,
                    other_node as int,
                ),
                self.ast.pool@[cloned_other_node_ptr as int].children@.len() == ci,
                forall|j: int, b: bool|
                    0 <= j < ci ==> #[trigger] render_node(
                        self.ast.pool@,
                        (self.ast.pool@[cloned_other_node_ptr as int].children@[j]) as int,
                        b,
                    ) == render_node(
                        opool,
                        (opool[other_node as int].children@[j]) as int,
                        b,
                    ),
                forall|j: int|
                    0 <= j < ci ==> copies(
                        self.ast.pool@,
                        (#[trigger] self.ast.pool@[cloned_other_node_ptr as int].children@[j]) as int,
                        opool,
                        (opool[other_node as int].children@[j]) as int,
                    ),
                self.ast.pool@.len() + kids_count(opool, other_node as int, ci as int) == pool0.len()
                    + subtree_count(opool, other_node as int),
            decreases num_children - ci,
        {
            let child = other_tree.ast.node(other_node).children[ci];
            let ghost pool_pre = self.ast.pool@;
            proof {
                assert(kids_count(opool, other_node as int, ci as int) == subtree_count(
                    opool,
                    child as int,
                ) + kids_count(opool, other_node as int, ci + 1));
                assert(self.ast.pool@.len() + subtree_count(opool, child as int) <= NULL);
            }
            let cc = self.clone_tree_helper(other_tree, cloned_other_node_ptr, child);
            proof {
                assert(pool_pre.len() <= self.ast.pool@.len());
                if other_parent != NULL {
                    assert(other_parent as int != cloned_other_node_ptr as int);
                    assert(self.ast.pool@[other_parent as int] == pool_pre[other_parent as int]);
                }
                assert(self.ast.pool@[cloned_other_node_ptr as int].data
                    == pool_pre[cloned_other_node_ptr as int].data);
                assert forall|j: int, b: bool| 0 <= j < ci + 1 implies #[trigger] render_node(
                    self.ast.pool@,
                    (self.ast.pool@[cloned_other_node_ptr as int].children@[j]) as int,
                    b,
                ) == render_node(opool, (opool[other_node as int].children@[j]) as int, b) by {
                    if j < ci {
                        let cj = pool_pre[cloned_other_node_ptr as int].children@[j];
                        assert(self.ast.pool@[cloned_other_node_ptr as int].children@[j] == cj);
                        assert(cloned_other_node_ptr < cj && (cj as int) < pool_pre.len());
                        assert forall|x: int| cj as int <= x < pool_pre.len() implies self.ast.pool@[x]
                            == pool_pre[x] by {}
                        lemma_render_frame(pool_pre, self.ast.pool@, cj as int, b);
                    } else {
                        assert(self.ast.pool@[cloned_other_node_ptr as int].children@[j] == cc);
                    }
                }
                assert forall|j: int| 0 <= j < ci + 1 implies copies(
                    self.ast.pool@,
                    (#[trigger] self.ast.pool@[cloned_other_node_ptr as int].children@[j]) as int,
                    opool,
                    (opool[other_node as int].children@[j]) as int,
                ) by {
                    if j < ci {
                        let cj = pool_pre[cloned_other_node_ptr as int].children@[j];
                        assert(self.ast.pool@[cloned_other_node_ptr as int].children@[j] == cj);
                        assert(cloned_other_node_ptr < cj && (cj as int) < pool_pre.len());
                        assert forall|x: int| cj as int <= x < pool_pre.len() implies self.ast.pool@[x]
                            == pool_pre[x] by {}
                        lemma_copies_frame(
                            pool_pre,
                            self.ast.pool@,
                            cj as int,
                            opool,
                            (opool[other_node as int].children@[j]) as int,
                        );
                    } else {
                        assert(self.ast.pool@[cloned_other_node_ptr as int].children@[j] == cc);
                    }
                }
            }
            ci = ci + 1;
        }
        proof {
            assert(kids_count(opool, other_node as int, num_children as int) == 0);
            assert forall|b: bool| #[trigger] render_node(
                self.ast.pool@,
                cloned_other_node_ptr as int,
                b,
            ) == render_node(opool, other_node as int, b) by {
                lemma_render_same_shape(
                    self.ast.pool@,
                    cloned_other_node_ptr as int,
                    opool,
                    other_node as int,
                    b,
                );
            }
            lemma_copies_kids_pointwise(
                self.ast.pool@,
                cloned_other_node_ptr as int,
                opool,
                other_node as int,
                0,
            );
            assert(copies(self.ast.pool@, cloned_other_node_ptr as int, opool, other_node as int));
        }
        cloned_other_node_ptr
    }

    /// Copies the single node `other_node` of `other_tree` into
    /// `self`'s arena: a fresh node with an equal token and no children.
    fn clone_node(&mut self, other_tree: &XmlAst, other_node: Pointer) -> (r: Pointer)
        requires
            old(self).wf(),
            other_tree.wf(),
            other_node < other_tree.ast.pool@.len(),
            old(self).ast.pool@.len() < NULL,
        ensures
            final(self).wf(),
            final(self).ast.root_list == old(self).ast.root_list,
            r as int == old(self).ast.pool@.len(),
            r < NULL,
            final(self).ast.pool@.len() == old(self).ast.pool@.len() + 1,
            forall|i: int|
                0 <= i < old(self).ast.pool@.len() ==> final(self).ast.pool@[i] == old(self).ast.pool@[i],
            final(self).ast.pool@[r as int].data is Some,
            final(self).ast.pool@[r as int].children@.len() == 0,
            node_tok(final(self).ast.pool@, r as int) == node_tok(
                other_tree.ast.pool@,
                other_node as int,
            ),
    {
        let duplicated_token = other_tree.ast.node(other_node).data.as_ref().unwrap().duplicate();
        self.ast.allocate(duplicated_token)
    }

    /// Depth-first serializer shared by the verbatim and trimmed modes.
    fn to_xml_helper(&self, node_ptr: u32, xml_stream: &mut String, trim: bool)
        requires
            self.wf(),
            node_ptr < self.ast.pool@.len(),
        ensures
            final(xml_stream)@ == old(xml_stream)@ + render_node(
                self.ast.pool@,
                node_ptr as int,
                trim,
            ),
        decreases self.ast.pool@.len() - node_ptr,
    {
        proof {
            reveal_strlit("<");
            reveal_strlit(">");
            reveal_strlit("</");
            reveal_strlit("/>");
            reveal_strlit(" ");
        }
        let node = self.ast.node(node_ptr);
        match &node.data {
            Some(token) => {
                match token.token_kind {
                    XmlTokenKind::OpenTag => {
                        xml_stream.append("<");
                        if trim {
                            let tname = trim_end_string(&token.content);
                            xml_stream.append(tname.as_str());
                        } else {
                            xml_stream.append(token.content.as_str());
                        }
                        render_attribs(&token.attribs, xml_stream, trim);
                        xml_stream.append(">");
                        proof {
                            assert(xml_stream@ =~= old(xml_stream)@ + open_text(token@, trim));
                        }
                        let ghost mid = xml_stream@;
                        let mut ci: usize = 0;
                        while ci < node.children.len()
                            invariant
                                self.wf(),
                                node_ptr < self.ast.pool@.len(),
                                *node == self.ast.pool@[node_ptr as int],
                                ci <= node.children@.len(),
                                xml_stream@ + render_kids(
                                    self.ast.pool@,
                                    node_ptr as int,
                                    ci as int,
                                    trim,
                                ) == mid + render_kids(self.ast.pool@, node_ptr as int, 0, trim),
                            decreases node.children@.len() - ci,
                        {
                            let child = node.children[ci];
                            self.to_xml_helper(child, xml_stream, trim);
                            proof {
                                assert(render_kids(self.ast.pool@, node_ptr as int, ci as int, trim)
                                    == render_node(self.ast.pool@, child as int, trim)
                                    + render_kids(
                                    self.ast.pool@,
                                    node_ptr as int,
                                    ci + 1,
                                    trim,
                                ));
                                assert(xml_stream@ + render_kids(
                                    self.ast.pool@,
                                    node_ptr as int,
                                    ci + 1,
                                    trim,
                                ) =~= mid + render_kids(self.ast.pool@, node_ptr as int, 0, trim));
                            }
                            ci = ci + 1;
                        }
                        proof {
                            assert(render_kids(
                                self.ast.pool@,
                                node_ptr as int,
                                node.children@.len() as int,
                                trim,
                            ) == Seq::<char>::empty());
                            assert(xml_stream@ =~= mid + render_kids(
                                self.ast.pool@,
                                node_ptr as int,
                                0,
                                trim,
                            ));
                        }
                        xml_stream.append("</");
                        if trim {
                            let tname = trim_string(&token.content);
                            xml_stream.append(tname.as_str());
                        } else {
                            xml_stream.append(token.content.as_str());
                        }
                        xml_stream.append(">");
                        proof {
                            assert(final(xml_stream)@ =~= old(xml_stream)@ + render_node(
                                self.ast.pool@,
                                node_ptr as int,
                                trim,
                            ));
                        }
                    },
                    XmlTokenKind::ContentTag => {
                        if trim {
                            let body = trim_string(&token.content);
                            xml_stream.append(body.as_str());
                        } else {
                            xml_stream.append(token.content.as_str());
                        }
                    },
                    XmlTokenKind::EmptyTag => {
                        xml_stream.append("<");
                        if trim {
                            let tname = trim_string(&token.content);
                            xml_stream.append(tname.as_str());
                            xml_stream.append(" ");
                        } else {
                            xml_stream.append(token.content.as_str());
                        }
                        render_attribs(&token.attribs, xml_stream, trim);
                        xml_stream.append("/>");
                        proof {
                            assert(final(xml_stream)@ =~= old(xml_stream)@ + empty_text(
                                token@,
                                trim,
                            ));
                        }
                    },
                    _ => {},
                }
            },
            None => {},
        }
    }
}

} // verus!
