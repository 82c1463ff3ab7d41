//! The id and class tables of a parse agree with its nodes.
use vstd::prelude::*;
use crate::parser::base::{
    blank_end, comment_open, initial_state, lemma_register_add, lemma_sp_tag, pwf, sp_add,
    sp_attrs, sp_class_fold, sp_parse, sp_read_end, sp_register_add, sp_single, sp_tag, with_idx,
    ParserV,
};
use crate::parser::tag::{class_member, empty_attrs_v, AttrsV, NodeV, TagV};
use crate::scan::{
    close_search, has_ws_token, html_event, is_ascii_ws_spec, lemma_next_token, lemma_run_end,
    next_token, occurs_at, run_end, ws_token_at, Run, BANG, GT, LF, LT, SLASH, SPACE,
};

verus! {

/// The attributes of node `k`, where it is a tag.
pub open spec fn attrs_of(nodes: Seq<NodeV>, k: int) -> Option<AttrsV> {
    match nodes[k] {
        NodeV::Tag(t) => Some(t.attrs),
        _ => None,
    }
}

/// Each id of the table names a tag that has that id.
pub open spec fn ids_ok(ids: Map<Seq<u8>, u32>, nodes: Seq<NodeV>) -> bool {
    forall|key: Seq<u8>|
        #[trigger] ids.contains_key(key) ==> 0 <= ids[key] < nodes.len() && (attrs_of(
            nodes,
            ids[key] as int,
        ) matches Some(a) && a.id == Some(key))
}

/// Each class of the table lists only tags that have that class.
pub open spec fn classes_ok(classes: Map<Seq<u8>, Seq<u32>>, nodes: Seq<NodeV>) -> bool {
    forall|key: Seq<u8>, j: int|
        classes.contains_key(key) && 0 <= j < classes[key].len() ==> 0 <= #[trigger] classes[key][j]
            < nodes.len() && (attrs_of(nodes, classes[key][j] as int) matches Some(a)
            && class_member(a, key))
}

/// Recording node `h` under each word of its class list `c` keeps the class table in
/// agreement with the nodes.
proof fn lemma_class_fold(
    classes: Map<Seq<u8>, Seq<u32>>,
    nodes: Seq<NodeV>,
    c: Seq<u8>,
    i: int,
    h: u32,
)
    requires
        classes_ok(classes, nodes),
        0 <= h < nodes.len(),
        attrs_of(nodes, h as int) matches Some(a) && a.class == Some(c),
        0 <= i <= c.len(),
        i == 0 || i == c.len() || is_ascii_ws_spec(c[i]),
    ensures
        classes_ok(sp_class_fold(classes, c, i, h), nodes),
    decreases c.len() - i,
{
    if let Some(t) = next_token(c, i) {
        lemma_next_token(c, i);
        lemma_run_end(c, i, Run::AsciiWhitespace);
        lemma_run_end(c, t.0, Run::NotAsciiWhitespace);
        let key = c.subrange(t.0, t.0 + t.1);
        assert(ws_token_at(c, key, t.0)) by {
            assert(c.subrange(t.0, t.0 + key.len()) =~= key);
            if t.0 > 0 {
                if t.0 == i {
                    assert(is_ascii_ws_spec(c[i]));
                    assert(false);
                }
                assert(is_ascii_ws_spec(c[t.0 - 1]));
            }
        }
        assert(has_ws_token(c, key));
        let cl2 = if classes.contains_key(key) {
            classes.insert(key, classes[key].push(h))
        } else {
            classes.insert(key, seq![h])
        };
        assert forall|k: Seq<u8>, j: int|
            cl2.contains_key(k) && 0 <= j < cl2[k].len() implies 0 <= #[trigger] cl2[k][j]
            < nodes.len() && (attrs_of(nodes, cl2[k][j] as int) matches Some(a) && class_member(
            a,
            k,
        )) by {
            if k == key {
                if classes.contains_key(key) && j < classes[key].len() {
                    assert(cl2[k][j] == classes[key][j]);
                } else {
                    assert(cl2[k][j] == h);
                }
            } else {
                assert(cl2[k] == classes[k]);
            }
        }
        lemma_class_fold(cl2, nodes, c, t.2, h);
    }
}

/// The tables agree with the nodes, and a table whose tracking is off is empty.
pub open spec fn tables_ok(p: ParserV, track_classes: bool, track_ids: bool) -> bool {
    &&& ids_ok(p.ids, p.nodes)
    &&& classes_ok(p.classes, p.nodes)
    &&& !track_ids ==> p.ids == Map::<Seq<u8>, u32>::empty()
    &&& !track_classes ==> p.classes == Map::<Seq<u8>, Seq<u32>>::empty()
}

/// Nodes that keep the attributes of the nodes before them keep the tables in agreement.
proof fn lemma_same_attrs(
    ids: Map<Seq<u8>, u32>,
    classes: Map<Seq<u8>, Seq<u32>>,
    n1: Seq<NodeV>,
    n2: Seq<NodeV>,
)
    requires
        n1.len() <= n2.len(),
        forall|k: int| 0 <= k < n1.len() ==> #[trigger] attrs_of(n2, k) == attrs_of(n1, k),
    ensures
        ids_ok(ids, n1) ==> ids_ok(ids, n2),
        classes_ok(classes, n1) ==> classes_ok(classes, n2),
{
    if ids_ok(ids, n1) {
        assert forall|key: Seq<u8>| #[trigger] ids.contains_key(key) implies 0 <= ids[key] < n2.len()
            && (attrs_of(n2, ids[key] as int) matches Some(a) && a.id == Some(key)) by {
            assert(attrs_of(n2, ids[key] as int) == attrs_of(n1, ids[key] as int));
        }
    }
    if classes_ok(classes, n1) {
        assert forall|key: Seq<u8>, j: int|
            classes.contains_key(key) && 0 <= j < classes[key].len() implies 0
            <= #[trigger] classes[key][j] < n2.len() && (attrs_of(n2, classes[key][j] as int) matches Some(
            a,
        ) && class_member(a, key)) by {
            assert(attrs_of(n2, classes[key][j] as int) == attrs_of(n1, classes[key][j] as int));
        }
    }
}

/// Registering a node keeps the tables in agreement.
proof fn lemma_tables_register(p: ParserV, n: NodeV, i: int, tc: bool, ti: bool)
    requires
        tables_ok(p, tc, ti),
        p.stack.len() > 0 ==> 0 <= p.stack.last() < p.nodes.len(),
    ensures
        tables_ok(sp_register_add(with_idx(p, i), n), tc, ti),
{
    let q = ParserV { nodes: p.nodes.push(n), ..with_idx(p, i) };
    let r = sp_register_add(with_idx(p, i), n);
    assert(r == sp_add(q, p.nodes.len() as u32));
    assert forall|k: int| 0 <= k < p.nodes.len() implies #[trigger] attrs_of(r.nodes, k) == attrs_of(
        p.nodes,
        k,
    ) by {
        assert(q.nodes[k] == p.nodes[k]);
    }
    lemma_same_attrs(p.ids, p.classes, p.nodes, r.nodes);
}

/// A closing tag keeps the tables in agreement: the tag it closes is recorded under its id
/// and classes where these are tracked.
proof fn lemma_tables_read_end(s: Seq<u8>, tc: bool, ti: bool, p: ParserV)
    requires
        pwf(s, p),
        tables_ok(p, tc, ti),
    ensures
        tables_ok(sp_read_end(s, tc, ti, p), tc, ti),
{
    let r = sp_read_end(s, tc, ti, p);
    if p.stack.len() != 0 {
        let h = p.stack.last();
        assert(p.stack[p.stack.len() - 1] == h);
        if let NodeV::Tag(t) = p.nodes[h as int] {
            let i0 = p.idx + 1;
            let e = run_end(s, i0, Run::Until(GT));
            if t.name == s.subrange(i0, e) {
                assert(attrs_of(p.nodes, h as int) == Some(t.attrs));
                if tc {
                    if let Some(c) = t.attrs.class {
                        lemma_class_fold(p.classes, p.nodes, c, 0, h);
                    }
                }
                if ti {
                    if let Some(id) = t.attrs.id {
                        let ids2 = p.ids.insert(id, h);
                        assert forall|key: Seq<u8>| #[trigger] ids2.contains_key(key) implies 0
                            <= ids2[key] < p.nodes.len() && (attrs_of(p.nodes, ids2[key] as int) matches Some(
                            a,
                        ) && a.id == Some(key)) by {
                            if key != id {
                                assert(p.ids.contains_key(key));
                            }
                        }
                    }
                }
                assert forall|k: int| 0 <= k < p.nodes.len() implies #[trigger] attrs_of(
                    r.nodes,
                    k,
                ) == attrs_of(p.nodes, k) by {}
                lemma_same_attrs(r.ids, r.classes, p.nodes, r.nodes);
            }
        }
    }
}

/// A tag step keeps the tables in agreement.
proof fn lemma_tables_tag(s: Seq<u8>, tc: bool, ti: bool, p: ParserV)
    requires
        pwf(s, p),
        tables_ok(p, tc, ti),
        p.idx < s.len(),
    ensures
        sp_tag(s, tc, ti, p) matches Ok(p2) ==> tables_ok(p2, tc, ti),
{
    if p.stack.len() > 0 {
        assert(p.stack[p.stack.len() - 1] == p.stack.last());
    }
    lemma_run_end(s, p.idx + 1, Run::Either(SPACE, LF));
    let i = blank_end(s, p.idx + 1);
    if i < s.len() {
        if s[i] == SLASH {
            lemma_tables_read_end(s, tc, ti, with_idx(p, i));
        } else if s[i] == BANG {
            let j = i + 1;
            let two = s.subrange(
                j,
                if j + 2 <= s.len() {
                    j + 2
                } else {
                    s.len() as int
                },
            );
            if two == comment_open() {
                let q = with_idx(p, i);
                match close_search(s, j) {
                    Some(e) => {
                        lemma_tables_register(q, NodeV::Comment(s.subrange(i - 1, e)), e, tc, ti);
                    },
                    None => {
                        lemma_tables_register(q, NodeV::Comment(seq![]), j, tc, ti);
                    },
                }
            }
        } else {
            let e = run_end(s, i, Run::Ident);
            if e != i {
                let name = s.subrange(i, e);
                let j = blank_end(s, e);
                let (attrs, k) = sp_attrs(s, j, empty_attrs_v());
                if let Some(a) = attrs {
                    let sc = k < s.len() && s[k] == SLASH;
                    let k2 = if sc {
                        k + 1
                    } else {
                        k
                    };
                    if k2 < s.len() && s[k2] == GT {
                        let k3 = k2 + 1;
                        let tag = TagV {
                            name,
                            attrs: a,
                            children: seq![],
                            raw: s.subrange(p.idx, k3),
                            raw_start: p.idx,
                        };
                        lemma_tables_register(p, NodeV::Tag(tag), k3, tc, ti);
                    }
                }
            }
        }
    }
}

/// The rest of a parse keeps the tables in agreement.
proof fn lemma_tables_single(s: Seq<u8>, tc: bool, ti: bool, p: ParserV)
    requires
        pwf(s, p),
        tables_ok(p, tc, ti),
    ensures
        sp_single(s, tc, ti, p) matches Ok(p2) ==> tables_ok(p2, tc, ti),
    decreases s.len() + 1 - p.idx,
{
    let ev = html_event(s, p.idx);
    if ev.0 == 1 {
        if p.stack.len() > 0 {
            assert(p.stack[p.stack.len() - 1] == p.stack.last());
        }
        lemma_run_end(s, p.idx, Run::Until(LT));
        let n = NodeV::Raw(s.subrange(ev.1, ev.1 + ev.2));
        lemma_register_add(s, p, n, ev.1 + ev.2);
        lemma_tables_register(p, n, ev.1 + ev.2, tc, ti);
        lemma_tables_single(s, tc, ti, sp_register_add(with_idx(p, ev.1 + ev.2), n));
    } else if ev.0 == 2 {
        lemma_sp_tag(s, tc, ti, p);
        lemma_tables_tag(s, tc, ti, p);
        if let Ok(p2) = sp_tag(s, tc, ti, p) {
            lemma_tables_single(s, tc, ti, p2);
        }
    }
}

/// The lookup tables of a successful parse agree with its nodes: each tracked id names a
/// tag that has that id, each tracked class lists only tags that have that class, and a
/// table whose tracking is off stays empty.
pub proof fn lemma_parse_tables(s: Seq<u8>, track_classes: bool, track_ids: bool)
    ensures
        sp_parse(s, track_classes, track_ids) matches Ok(p) ==> tables_ok(
            p,
            track_classes,
            track_ids,
        ),
{
    if s.len() <= u32::MAX && s.len() < usize::MAX {
        let p0 = initial_state();
        assert(ids_ok(p0.ids, p0.nodes));
        assert(classes_ok(p0.classes, p0.nodes));
        lemma_tables_single(s, track_classes, track_ids, p0);
    }
}

} // verus!
