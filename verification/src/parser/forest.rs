//! The shape of a parse: its nodes form a forest laid out in document order.
use vstd::prelude::*;
use crate::parser::base::{
    blank_end, comment_open, initial_state, lemma_close_search_bounds, lemma_register_add,
    lemma_sp_attrs, lemma_sp_tag, pwf, sp_add, sp_attrs, sp_markdown, sp_parse, sp_read_end,
    sp_register_add, sp_single, sp_tag, with_idx, ParserV,
};
use crate::parser::base::Parser;
use crate::parser::tag::{empty_attrs_v, handles, HTMLTag, Node, NodeHandle};
use crate::scan::{close_search, html_event, html_void_elements, is_void_tag_name, lemma_void_names, lemma_run_end, run_end, Run, BANG, GT, LF, LT, SLASH, SPACE};
use crate::parser::tag::{NodeV, TagV};

verus! {

/// The children of node `k`; a node that is not a tag has none.
pub open spec fn kids(nodes: Seq<NodeV>, k: int) -> Seq<u32> {
    match nodes[k] {
        NodeV::Tag(t) => t.children,
        _ => seq![],
    }
}

/// Every child of a tag comes after the tag and is a node.
pub open spec fn ordered(n: Seq<NodeV>) -> bool {
    forall|k: int, j: int|
        0 <= k < n.len() && 0 <= j < kids(n, k).len() ==> k < #[trigger] kids(n, k)[j] < n.len()
}

/// The nodes form a forest in document order: every child of a tag comes after the tag,
/// children and top-level nodes are listed in increasing order, and no node is listed
/// twice, as the child of two tags or as both a child and a top-level node.
pub open spec fn forest(p: ParserV) -> bool {
    let n = p.nodes;
    &&& ordered(n)
    &&& forall|k: int, j1: int, j2: int|
        0 <= k < n.len() && 0 <= j1 < j2 < kids(n, k).len() ==> #[trigger] kids(n, k)[j1]
            < #[trigger] kids(n, k)[j2]
    &&& forall|j: int| 0 <= j < p.ast.len() ==> #[trigger] p.ast[j] < n.len()
    &&& forall|j1: int, j2: int|
        0 <= j1 < j2 < p.ast.len() ==> #[trigger] p.ast[j1] < #[trigger] p.ast[j2]
    &&& forall|k1: int, j1: int, k2: int, j2: int|
        0 <= k1 < n.len() && 0 <= k2 < n.len() && 0 <= j1 < kids(n, k1).len() && 0 <= j2 < kids(
            n,
            k2,
        ).len() && #[trigger] kids(n, k1)[j1] == #[trigger] kids(n, k2)[j2] ==> k1 == k2
    &&& forall|k: int, j: int, a: int|
        0 <= k < n.len() && 0 <= j < kids(n, k).len() && 0 <= a < p.ast.len() ==> #[trigger] kids(
            n,
            k,
        )[j] != #[trigger] p.ast[a]
}

/// Node `m` is listed as a top-level node or as the child of a tag.
pub open spec fn listed(p: ParserV, m: int) -> bool {
    ||| exists|a: int| 0 <= a < p.ast.len() && #[trigger] p.ast[a] == m
    ||| exists|k: int, j: int|
        0 <= k < p.nodes.len() && 0 <= j < kids(p.nodes, k).len() && #[trigger] kids(p.nodes, k)[j]
            == m
}

/// Every node is listed as a top-level node or as the child of a tag.
pub open spec fn all_listed(p: ParserV) -> bool {
    forall|m: int| 0 <= m < p.nodes.len() ==> #[trigger] listed(p, m)
}

/// A node that is new to a parse: a tag has no children yet.
pub open spec fn fresh(n: NodeV) -> bool {
    n matches NodeV::Tag(t) ==> t.children.len() == 0
}

/// Appending a fresh node and adding it to the innermost open tag (or to the top-level
/// nodes) keeps the forest.
pub proof fn lemma_forest_register(p: ParserV, n: NodeV, i: int)
    requires
        forest(p),
        fresh(n),
        p.nodes.len() <= u32::MAX,
        p.stack.len() > 0 ==> 0 <= p.stack.last() < p.nodes.len() && p.nodes[p.stack.last() as int] is Tag,
    ensures
        forest(sp_register_add(with_idx(p, i), n)),
{
    let h = p.nodes.len() as int;
    let q = ParserV { nodes: p.nodes.push(n), ..with_idx(p, i) };
    let r = sp_register_add(with_idx(p, i), n);
    assert(r == sp_add(q, h as u32));
    assert forall|k: int| 0 <= k < h implies #[trigger] kids(q.nodes, k) == kids(p.nodes, k) by {
        assert(q.nodes[k] == p.nodes[k]);
    }
    assert(kids(q.nodes, h as int) =~= seq![]);
    if p.stack.len() == 0 {
        assert(r.nodes == q.nodes);
        assert(r.ast == p.ast.push(h as u32));
        assert forall|k: int| 0 <= k <= h implies #[trigger] kids(r.nodes, k) == if k < h {
            kids(p.nodes, k)
        } else {
            seq![]
        } by {}
    } else {
        let top = p.stack.last() as int;
        assert(r.ast == p.ast);
        assert(kids(r.nodes, top) == kids(p.nodes, top).push(h as u32));
        assert forall|k: int| 0 <= k <= h && k != top implies #[trigger] kids(r.nodes, k) == if k
            < h {
            kids(p.nodes, k)
        } else {
            seq![]
        } by {
            assert(r.nodes[k] == q.nodes[k]);
        }
    }
}

/// Appending a node and adding it to the innermost open tag (or to the top-level nodes)
/// keeps every node listed.
pub proof fn lemma_listed_register(p: ParserV, n: NodeV, i: int)
    requires
        all_listed(p),
        p.nodes.len() <= u32::MAX,
        p.stack.len() > 0 ==> 0 <= p.stack.last() < p.nodes.len() && p.nodes[p.stack.last() as int] is Tag,
    ensures
        all_listed(sp_register_add(with_idx(p, i), n)),
{
    let h = p.nodes.len() as int;
    let q = ParserV { nodes: p.nodes.push(n), ..with_idx(p, i) };
    let r = sp_register_add(with_idx(p, i), n);
    assert(r == sp_add(q, h as u32));
    assert forall|k: int| 0 <= k < h implies #[trigger] kids(q.nodes, k) == kids(p.nodes, k) by {
        assert(q.nodes[k] == p.nodes[k]);
    }
    let top = if p.stack.len() == 0 {
        -1
    } else {
        p.stack.last() as int
    };
    assert forall|k: int| 0 <= k < h implies kids(r.nodes, k).len() >= kids(p.nodes, k).len() && forall|
        j: int,
    | 0 <= j < kids(p.nodes, k).len() ==> #[trigger] kids(r.nodes, k)[j] == kids(p.nodes, k)[j] by {
        if k == top {
            assert(kids(r.nodes, k) == kids(p.nodes, k).push(h as u32));
        } else {
            assert(r.nodes[k] == q.nodes[k]);
        }
    }
    assert forall|m: int| 0 <= m < r.nodes.len() implies #[trigger] listed(r, m) by {
        if m < h {
            assert(listed(p, m));
            if exists|a: int| 0 <= a < p.ast.len() && #[trigger] p.ast[a] == m {
                let a = choose|a: int| 0 <= a < p.ast.len() && #[trigger] p.ast[a] == m;
                assert(r.ast[a] == p.ast[a]);
            } else {
                let (k, j) = choose|k: int, j: int|
                    0 <= k < p.nodes.len() && 0 <= j < kids(p.nodes, k).len() && #[trigger] kids(
                        p.nodes,
                        k,
                    )[j] == m;
                assert(kids(r.nodes, k)[j] == m);
            }
        } else if top < 0 {
            assert(r.ast[p.ast.len() as int] == m);
        } else {
            assert(kids(r.nodes, top) == kids(p.nodes, top).push(h as u32));
            assert(kids(r.nodes, top)[kids(p.nodes, top).len() as int] == m);
        }
    }
}

/// The stack of a well-formed state names tag nodes; its top in particular.
proof fn lemma_stack_top(s: Seq<u8>, p: ParserV)
    requires
        pwf(s, p),
    ensures
        p.stack.len() > 0 ==> 0 <= p.stack.last() < p.nodes.len() && p.nodes[p.stack.last() as int] is Tag,
{
    if p.stack.len() > 0 {
        assert(p.stack[p.stack.len() - 1] == p.stack.last());
    }
}

/// Listing depends on the nodes and the top-level nodes alone.
proof fn lemma_listed_same(p: ParserV)
    requires
        all_listed(p),
    ensures
        forall|r: ParserV| r.nodes == p.nodes && r.ast == p.ast ==> #[trigger] all_listed(r),
{
    assert forall|r: ParserV| r.nodes == p.nodes && r.ast == p.ast implies #[trigger] all_listed(
        r,
    ) by {
        assert forall|m: int| 0 <= m < r.nodes.len() implies #[trigger] listed(r, m) by {
            assert(listed(p, m));
        }
    }
}

/// A node list that changes one tag without changing its children keeps the forest.
proof fn lemma_forest_same_kids(p: ParserV, r: ParserV)
    requires
        forest(p),
        all_listed(p),
        r.ast == p.ast,
        r.nodes.len() == p.nodes.len(),
        forall|k: int| 0 <= k < p.nodes.len() ==> #[trigger] kids(r.nodes, k) == kids(p.nodes, k),
    ensures
        forest(r),
        all_listed(r),
{
    assert forall|m: int| 0 <= m < r.nodes.len() implies #[trigger] listed(r, m) by {
        assert(listed(p, m));
        if !(exists|a: int| 0 <= a < p.ast.len() && #[trigger] p.ast[a] == m) {
            let (k, j) = choose|k: int, j: int|
                0 <= k < p.nodes.len() && 0 <= j < kids(p.nodes, k).len() && #[trigger] kids(
                    p.nodes,
                    k,
                )[j] == m;
            assert(kids(r.nodes, k)[j] == m);
        }
    }
}

/// A tag step keeps the forest.
proof fn lemma_forest_tag(s: Seq<u8>, tc: bool, ti: bool, p: ParserV)
    requires
        pwf(s, p),
        forest(p),
        all_listed(p),
        p.idx < s.len(),
    ensures
        sp_tag(s, tc, ti, p) matches Ok(p2) ==> forest(p2) && all_listed(p2),
{
    lemma_stack_top(s, p);
    lemma_listed_same(p);
    lemma_run_end(s, p.idx + 1, Run::Either(SPACE, LF));
    let i = blank_end(s, p.idx + 1);
    if i < s.len() {
        if s[i] == SLASH {
            let q = with_idx(p, i);
            let r = sp_read_end(s, tc, ti, q);
            assert forall|k: int| 0 <= k < p.nodes.len() implies #[trigger] kids(r.nodes, k) == kids(
                p.nodes,
                k,
            ) by {}
            lemma_forest_same_kids(p, r);
        } else if s[i] == BANG {
            let j = i + 1;
            let two = s.subrange(
                j,
                if j + 2 <= s.len() {
                    j + 2
                } else {
                    s.len() as int
                },
            );
            if two == comment_open() {
                let q = with_idx(p, i);
                match close_search(s, j) {
                    Some(e) => {
                        lemma_forest_register(q, NodeV::Comment(s.subrange(i - 1, e)), e);
                        lemma_listed_register(q, NodeV::Comment(s.subrange(i - 1, e)), e);
                    },
                    None => {
                        lemma_forest_register(q, NodeV::Comment(seq![]), j);
                        lemma_listed_register(q, NodeV::Comment(seq![]), j);
                    },
                }
            }
        } else {
            let e = run_end(s, i, Run::Ident);
            if e != i {
                let name = s.subrange(i, e);
                let j = blank_end(s, e);
                let (attrs, k) = sp_attrs(s, j, empty_attrs_v());
                if let Some(a) = attrs {
                    let sc = k < s.len() && s[k] == SLASH;
                    let k2 = if sc {
                        k + 1
                    } else {
                        k
                    };
                    if k2 < s.len() && s[k2] == GT {
                        let k3 = k2 + 1;
                        let tag = TagV {
                            name,
                            attrs: a,
                            children: seq![],
                            raw: s.subrange(p.idx, k3),
                            raw_start: p.idx,
                        };
                        lemma_forest_register(p, NodeV::Tag(tag), k3);
                        lemma_listed_register(p, NodeV::Tag(tag), k3);
                        lemma_listed_same(sp_register_add(with_idx(p, k3), NodeV::Tag(tag)));
                    }
                }
            }
        }
    }
}

/// The rest of a parse keeps the forest.
proof fn lemma_forest_single(s: Seq<u8>, tc: bool, ti: bool, p: ParserV)
    requires
        pwf(s, p),
        forest(p),
        all_listed(p),
    ensures
        sp_single(s, tc, ti, p) matches Ok(p2) ==> forest(p2) && all_listed(p2),
    decreases s.len() + 1 - p.idx,
{
    let ev = html_event(s, p.idx);
    if ev.0 == 1 {
        lemma_stack_top(s, p);
        lemma_run_end(s, p.idx, Run::Until(LT));
        let n = NodeV::Raw(s.subrange(ev.1, ev.1 + ev.2));
        lemma_register_add(s, p, n, ev.1 + ev.2);
        lemma_forest_register(p, n, ev.1 + ev.2);
        lemma_listed_register(p, n, ev.1 + ev.2);
        lemma_forest_single(s, tc, ti, sp_register_add(with_idx(p, ev.1 + ev.2), n));
    } else if ev.0 == 2 {
        lemma_sp_tag(s, tc, ti, p);
        lemma_forest_tag(s, tc, ti, p);
        if let Ok(p2) = sp_tag(s, tc, ti, p) {
            lemma_forest_single(s, tc, ti, p2);
        }
    }
}

/// A successful parse yields a forest laid out in document order: each child of a tag
/// comes after it, children and top-level nodes are listed in increasing order, and every
/// node is listed exactly once, under one parent or at the top level.
pub proof fn lemma_parse_forest(s: Seq<u8>, track_classes: bool, track_ids: bool)
    ensures
        sp_parse(s, track_classes, track_ids) matches Ok(p) ==> forest(p) && all_listed(p),
{
    if s.len() <= u32::MAX && s.len() < usize::MAX {
        lemma_forest_single(s, track_classes, track_ids, initial_state());
    }
}

/// The text of node `k`: the bytes of a text node, nothing for a comment, and for a tag
/// the texts of its children in order.
pub open spec fn text_of(nodes: Seq<NodeV>, k: int) -> Seq<u8>
    decreases nodes.len() - k, 1int, 0int,
{
    if 0 <= k < nodes.len() {
        match nodes[k] {
            NodeV::Raw(b) => b,
            NodeV::Comment(_) => seq![],
            NodeV::Tag(t) => texts_of(nodes, k, t.children, t.children.len() as int),
        }
    } else {
        seq![]
    }
}

/// The texts of the first `n` nodes of `cs` in order, of those that are nodes after
/// `after`.
pub open spec fn texts_of(nodes: Seq<NodeV>, after: int, cs: Seq<u32>, n: int) -> Seq<u8>
    decreases nodes.len() - after, 0int, n,
{
    if n <= 0 || n > cs.len() {
        seq![]
    } else {
        let c = cs[n - 1] as int;
        texts_of(nodes, after, cs, n - 1) + if after < c < nodes.len() {
            text_of(nodes, c)
        } else {
            seq![]
        }
    }
}

/// The text of node `n` read among `nodes`: the bytes of a text node, nothing for a
/// comment, and for a tag the texts of its children in order.
pub open spec fn node_text(nodes: Seq<NodeV>, n: NodeV) -> Seq<u8> {
    match n {
        NodeV::Raw(b) => b,
        NodeV::Comment(_) => seq![],
        NodeV::Tag(t) => texts_of(nodes, -1, t.children, t.children.len() as int),
    }
}

/// Appends the text of node `k` to `out`.
fn push_text<'a>(parser: &Parser<'a>, k: usize, out: &mut Vec<u8>)
    requires
        ordered(parser@.nodes),
        k < parser.tags@.len(),
    ensures
        final(out)@ == old(out)@ + text_of(parser@.nodes, k as int),
    decreases parser.tags@.len() - k, 1int,
{
    let ghost nodes = parser@.nodes;
    proof {
        assert(nodes[k as int] == parser.tags@[k as int]@);
    }
    match &parser.tags[k] {
        Node::Raw(b) => {
            out.extend_from_slice(b);
            proof {
                assert(final(out)@ =~= old(out)@ + b@);
            }
        },
        Node::Comment(_) => {
            proof {
                assert(old(out)@ + seq![] =~= old(out)@);
            }
        },
        Node::Tag(t) => {
            proof {
                assert(kids(nodes, k as int) == handles(t.children@));
                assert forall|j: int| 0 <= j < t.children@.len() implies k < #[trigger] t.children@[j].0 by {
                    assert(kids(nodes, k as int)[j] == t.children@[j].0);
                }
            }
            push_children(parser, Ghost(k as int), t.children.as_slice(), out);
        },
    }
}

/// Appends the texts of the nodes of `cs` after `after` to `out`.
fn push_children<'a>(parser: &Parser<'a>, Ghost(after): Ghost<int>, cs: &[NodeHandle], out: &mut Vec<u8>)
    requires
        ordered(parser@.nodes),
        -1 <= after < parser.tags@.len(),
        forall|j: int| 0 <= j < cs@.len() ==> after < #[trigger] cs@[j].0,
    ensures
        final(out)@ == old(out)@ + texts_of(parser@.nodes, after, handles(cs@), cs@.len() as int),
    decreases parser.tags@.len() - after, 0int,
{
    let ghost nodes = parser@.nodes;
    let ghost hs = handles(cs@);
    let n = parser.tags.len();
    let mut j: usize = 0;
    while j < cs.len()
        invariant
            ordered(parser@.nodes),
            nodes == parser@.nodes,
            n == parser.tags@.len(),
            nodes.len() == n,
            -1 <= after < n,
            hs == handles(cs@),
            forall|i: int| 0 <= i < cs@.len() ==> after < #[trigger] cs@[i].0,
            j <= cs@.len(),
            out@ == old(out)@ + texts_of(nodes, after, hs, j as int),
        decreases cs@.len() - j,
    {
        let c = cs[j].0;
        proof {
            assert(hs[j as int] == c);
            assert(after < c);
        }
        if (c as usize) < n {
            push_text(parser, c as usize, out);
            proof {
                assert(out@ =~= old(out)@ + texts_of(nodes, after, hs, j + 1));
            }
        } else {
            proof {
                assert(texts_of(nodes, after, hs, j + 1) =~= texts_of(nodes, after, hs, j as int));
            }
        }
        j = j + 1;
    }
}

impl<'a> Node<'a> {
    /// The text of the node: the bytes of a text node, nothing for a comment, and for a
    /// tag the texts of its children in document order (see [`node_text`]).
    pub fn inner_text(&self, parser: &Parser<'a>) -> (t: Vec<u8>)
        requires
            ordered(parser@.nodes),
        ensures
            t@ == node_text(parser@.nodes, self@),
    {
        let mut out: Vec<u8> = Vec::new();
        match self {
            Node::Raw(b) => {
                out.extend_from_slice(b);
                proof {
                    assert(out@ =~= b@);
                }
            },
            Node::Comment(_) => {},
            Node::Tag(t) => {
                push_children(parser, Ghost(-1), t.children.as_slice(), &mut out);
                proof {
                    assert(out@ =~= texts_of(parser@.nodes, -1, handles(t.children@), t.children@.len() as int));
                }
            },
        }
        out
    }
}

impl<'a> HTMLTag<'a> {
    /// The texts of the children of the tag in document order (see [`node_text`]).
    pub fn inner_text(&self, parser: &Parser<'a>) -> (t: Vec<u8>)
        requires
            ordered(parser@.nodes),
        ensures
            t@ == texts_of(parser@.nodes, -1, handles(self.children@), self.children@.len() as int),
    {
        let mut out: Vec<u8> = Vec::new();
        push_children(parser, Ghost(-1), self.children.as_slice(), &mut out);
        proof {
            assert(out@ =~= texts_of(parser@.nodes, -1, handles(self.children@), self.children@.len() as int));
        }
        out
    }
}

/// No tag named for a void element has children or is open.
pub open spec fn voids_closed(p: ParserV) -> bool {
    forall|k: int|
        0 <= k < p.nodes.len() && (#[trigger] p.nodes[k] matches NodeV::Tag(t)
            && html_void_elements().contains(t.name)) ==> kids(p.nodes, k).len() == 0
            && !p.stack.contains(k as u32)
}

/// Registering a fresh node keeps void tags closed: the tag that receives it is open, so it
/// is not void.
proof fn lemma_void_register(p: ParserV, n: NodeV, i: int)
    requires
        voids_closed(p),
        fresh(n),
        p.nodes.len() <= u32::MAX,
        forall|j: int| 0 <= j < p.stack.len() ==> #[trigger] p.stack[j] < p.nodes.len(),
        p.stack.len() > 0 ==> p.nodes[p.stack.last() as int] is Tag,
    ensures
        voids_closed(sp_register_add(with_idx(p, i), n)),
{
    let h = p.nodes.len() as int;
    let q = ParserV { nodes: p.nodes.push(n), ..with_idx(p, i) };
    let r = sp_register_add(with_idx(p, i), n);
    assert(r == sp_add(q, h as u32));
    assert(r.stack == p.stack);
    if p.stack.len() > 0 {
        assert(p.stack[p.stack.len() - 1] == p.stack.last());
        assert(p.stack.contains(p.stack.last()));
    }
    assert forall|k: int|
        0 <= k < r.nodes.len() && (#[trigger] r.nodes[k] matches NodeV::Tag(t)
            && html_void_elements().contains(t.name)) implies kids(r.nodes, k).len() == 0
        && !r.stack.contains(k as u32) by {
        if k < h {
            assert(q.nodes[k] == p.nodes[k]);
            if p.stack.len() > 0 && k == p.stack.last() {
                assert(p.nodes[k] matches NodeV::Tag(t) && html_void_elements().contains(t.name));
                assert(false);
            }
            assert(r.nodes[k] == p.nodes[k]);
        } else {
            assert(r.nodes[k] == n);
            if r.stack.contains(k as u32) {
                let j = choose|j: int| 0 <= j < r.stack.len() && r.stack[j] == k as u32;
                assert(p.stack[j] < p.nodes.len());
            }
        }
    }
}

/// A tag step keeps void tags closed.
proof fn lemma_void_tag(s: Seq<u8>, tc: bool, ti: bool, p: ParserV)
    requires
        pwf(s, p),
        voids_closed(p),
        p.idx < s.len(),
    ensures
        sp_tag(s, tc, ti, p) matches Ok(p2) ==> voids_closed(p2),
{
    lemma_stack_top(s, p);
    assert forall|j: int| 0 <= j < p.stack.len() implies #[trigger] p.stack[j] < p.nodes.len() by {}
    lemma_run_end(s, p.idx + 1, Run::Either(SPACE, LF));
    let i = blank_end(s, p.idx + 1);
    if i < s.len() {
        if s[i] == SLASH {
            let q = with_idx(p, i);
            let r = sp_read_end(s, tc, ti, q);
            if p.stack.len() > 0 {
                assert(p.stack[p.stack.len() - 1] == p.stack.last());
            }
            assert forall|k: int|
                0 <= k < r.nodes.len() && (#[trigger] r.nodes[k] matches NodeV::Tag(t)
                    && html_void_elements().contains(t.name)) implies kids(r.nodes, k).len() == 0
                && !r.stack.contains(k as u32) by {
                assert(kids(r.nodes, k) == kids(p.nodes, k));
                if r.stack != p.stack {
                    let h = p.stack.last() as int;
                    if k != h {
                        assert(r.nodes[k] == p.nodes[k]);
                    }
                    if r.stack.contains(k as u32) {
                        let j = choose|j: int| 0 <= j < r.stack.len() && r.stack[j] == k as u32;
                        assert(p.stack[j] == r.stack[j]);
                        assert(p.stack.contains(k as u32));
                    }
                } else {
                    assert(r.nodes[k] == p.nodes[k]);
                }
            }
        } else if s[i] == BANG {
            let j = i + 1;
            let two = s.subrange(
                j,
                if j + 2 <= s.len() {
                    j + 2
                } else {
                    s.len() as int
                },
            );
            if two == comment_open() {
                let q = with_idx(p, i);
                match close_search(s, j) {
                    Some(e) => {
                        lemma_void_register(q, NodeV::Comment(s.subrange(i - 1, e)), e);
                    },
                    None => {
                        lemma_void_register(q, NodeV::Comment(seq![]), j);
                    },
                }
            }
        } else {
            lemma_run_end(s, i, Run::Ident);
            let e = run_end(s, i, Run::Ident);
            if e != i {
                let name = s.subrange(i, e);
                lemma_run_end(s, e, Run::Either(SPACE, LF));
                let j = blank_end(s, e);
                lemma_sp_attrs(s, j, empty_attrs_v());
                let (attrs, k) = sp_attrs(s, j, empty_attrs_v());
                if let Some(a) = attrs {
                    let sc = k < s.len() && s[k] == SLASH;
                    let k2 = if sc {
                        k + 1
                    } else {
                        k
                    };
                    if k2 < s.len() && s[k2] == GT {
                        let k3 = k2 + 1;
                        let h = p.nodes.len() as u32;
                        let tag = TagV {
                            name,
                            attrs: a,
                            children: seq![],
                            raw: s.subrange(p.idx, k3),
                            raw_start: p.idx,
                        };
                        lemma_void_register(p, NodeV::Tag(tag), k3);
                        let p2 = sp_register_add(with_idx(p, k3), NodeV::Tag(tag));
                        lemma_register_add(s, p, NodeV::Tag(tag), k3);
                        if !sc && !is_void_tag_name(name) {
                            if html_void_elements().contains(name) {
                                lemma_void_names(name);
                            }
                            let p3 = ParserV { stack: p2.stack.push(h), ..p2 };
                            assert forall|m: int|
                                0 <= m < p3.nodes.len() && (#[trigger] p3.nodes[m] matches NodeV::Tag(t)
                                    && html_void_elements().contains(t.name)) implies kids(p3.nodes, m).len()
                                == 0 && !p3.stack.contains(m as u32) by {
                                assert(p2.nodes[m] == p3.nodes[m]);
                                if m == h as int {
                                    assert(p2.nodes[m] == NodeV::Tag(tag));
                                }
                                if p3.stack.contains(m as u32) && m != h as int {
                                    let jj = choose|jj: int| 0 <= jj < p3.stack.len() && p3.stack[jj] == m as u32;
                                    assert(p2.stack[jj] == p3.stack[jj]);
                                    assert(p2.stack.contains(m as u32));
                                }
                            }
                        }
                    }
                }
            }
        }
    }
}

/// The rest of a parse keeps void tags closed.
proof fn lemma_void_single(s: Seq<u8>, tc: bool, ti: bool, p: ParserV)
    requires
        pwf(s, p),
        voids_closed(p),
    ensures
        sp_single(s, tc, ti, p) matches Ok(p2) ==> voids_closed(p2),
    decreases s.len() + 1 - p.idx,
{
    let ev = html_event(s, p.idx);
    if ev.0 == 1 {
        lemma_stack_top(s, p);
        assert forall|j: int| 0 <= j < p.stack.len() implies #[trigger] p.stack[j] < p.nodes.len() by {}
        lemma_run_end(s, p.idx, Run::Until(LT));
        let n = NodeV::Raw(s.subrange(ev.1, ev.1 + ev.2));
        lemma_register_add(s, p, n, ev.1 + ev.2);
        lemma_void_register(p, n, ev.1 + ev.2);
        lemma_void_single(s, tc, ti, sp_register_add(with_idx(p, ev.1 + ev.2), n));
    } else if ev.0 == 2 {
        lemma_sp_tag(s, tc, ti, p);
        lemma_void_tag(s, tc, ti, p);
        if let Ok(p2) = sp_tag(s, tc, ti, p) {
            lemma_void_single(s, tc, ti, p2);
        }
    }
}

/// A tag named for an HTML void element is never opened: in every parse it has no children
/// and is not on the stack of open tags, so no later node becomes its child.
pub proof fn lemma_parse_void(s: Seq<u8>, track_classes: bool, track_ids: bool)
    ensures
        sp_parse(s, track_classes, track_ids) matches Ok(p) ==> voids_closed(p),
{
    if s.len() <= u32::MAX && s.len() < usize::MAX {
        lemma_void_single(s, track_classes, track_ids, initial_state());
    }
}

} // verus!
