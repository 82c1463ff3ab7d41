//! A parsed document.
use vstd::prelude::*;
use vstd::string::StringSliceAdditionalSpecFns;
use crate::parser::base::{HTMLVersion, Parser, ParserV};
use crate::parser::tag::{handles, Node, NodeHandle, NodeV};
use crate::parser::base::{initial_state, lemma_sp_single_end, sp_parse};
use crate::parser::tag::class_member;
use crate::parser::tables::{attrs_of, lemma_parse_tables};
use crate::queryselector::parser::sp_sel;
use crate::queryselector::selector::{sel_matches, Selector, SelectorV};

verus! {

/// The nodes of `nodes` (by index, in order) that selector `s` matches.
pub open spec fn matching(nodes: Seq<NodeV>, s: SelectorV) -> Seq<u32>
    decreases nodes.len(),
{
    if nodes.len() == 0 {
        seq![]
    } else {
        let rest = matching(nodes.drop_last(), s);
        if sel_matches(s, nodes.last()) {
            rest.push((nodes.len() - 1) as u32)
        } else {
            rest
        }
    }
}

/// What a query selector returns: the indices of exactly the nodes that the selector
/// matches, each once, in increasing (document) order.
pub proof fn lemma_matching(nodes: Seq<NodeV>, s: SelectorV)
    requires
        nodes.len() <= u32::MAX + 1,
    ensures
        forall|k: int|
            0 <= k < matching(nodes, s).len() ==> #[trigger] matching(nodes, s)[k] < nodes.len()
                && sel_matches(s, nodes[matching(nodes, s)[k] as int]),
        forall|k1: int, k2: int|
            0 <= k1 < k2 < matching(nodes, s).len() ==> #[trigger] matching(nodes, s)[k1]
                < #[trigger] matching(nodes, s)[k2],
        forall|i: int|
            0 <= i < nodes.len() && #[trigger] sel_matches(s, nodes[i]) ==> matching(
                nodes,
                s,
            ).contains(i as u32),
    decreases nodes.len(),
{
    if nodes.len() > 0 {
        let prev = nodes.drop_last();
        lemma_matching(prev, s);
        let m0 = matching(prev, s);
        let m = matching(nodes, s);
        let last = (nodes.len() - 1) as int;
        assert forall|k: int| 0 <= k < m0.len() implies #[trigger] m0[k] < last && nodes[m0[k] as int] == prev[m0[k] as int] by {}
        assert forall|i: int| 0 <= i < nodes.len() && #[trigger] sel_matches(s, nodes[i]) implies m.contains(i as u32) by {
            if i < last {
                assert(prev[i] == nodes[i]);
                assert(sel_matches(s, prev[i]));
                assert(m0.contains(i as u32));
                let k = choose|k: int| 0 <= k < m0.len() && m0[k] == i as u32;
                assert(m[k] == i as u32);
            } else {
                assert(m[m0.len() as int] == i as u32);
            }
        }
    }
}

/// The first node of `nodes` that is a tag with id `id`.
pub open spec fn first_with_id(nodes: Seq<NodeV>, id: Seq<u8>) -> Option<int> {
    if exists|i: int| 0 <= i < nodes.len() && has_id(nodes[i], id) {
        Some(choose|i: int| 0 <= i < nodes.len() && has_id(nodes[i], id) && forall|j: int|
            0 <= j < i ==> !has_id(#[trigger] nodes[j], id))
    } else {
        None
    }
}

/// Where node `i` is the first with id `id`, it is the one that `first_with_id` names.
proof fn lemma_first_with_id(nodes: Seq<NodeV>, id: Seq<u8>, i: int)
    requires
        0 <= i < nodes.len(),
        has_id(nodes[i], id),
        forall|j: int| 0 <= j < i ==> !has_id(#[trigger] nodes[j], id),
    ensures
        first_with_id(nodes, id) == Some(i),
{
    let c = choose|c: int|
        0 <= c < nodes.len() && has_id(nodes[c], id) && forall|j: int|
            0 <= j < c ==> !has_id(#[trigger] nodes[j], id);
    assert(0 <= c < nodes.len() && has_id(nodes[c], id));
    if c < i {
        assert(!has_id(nodes[c], id));
    } else if c > i {
        assert(!has_id(nodes[i], id));
    }
}

/// Node `n` is a tag with id `id`.
pub open spec fn has_id(n: NodeV, id: Seq<u8>) -> bool {
    n matches NodeV::Tag(t) && t.attrs.id == Some(id)
}

/// An element found by id is a tag with that id, whether ids are tracked or not: the id
/// table of a successful parse names only such tags, and without the table the first such
/// node is taken.
pub proof fn lemma_found_by_id(s: Seq<u8>, track_classes: bool, track_ids: bool, id: Seq<u8>)
    ensures
        sp_parse(s, track_classes, track_ids) matches Ok(p) ==> {
            &&& p.ids.contains_key(id) ==> 0 <= p.ids[id] < p.nodes.len() && has_id(
                p.nodes[p.ids[id] as int],
                id,
            )
            &&& first_with_id(p.nodes, id) matches Some(i) ==> 0 <= i < p.nodes.len() && has_id(
                p.nodes[i],
                id,
            )
        },
{
    lemma_parse_tables(s, track_classes, track_ids);
    if let Ok(p) = sp_parse(s, track_classes, track_ids) {
        if p.ids.contains_key(id) {
            assert(attrs_of(p.nodes, p.ids[id] as int) matches Some(a) && a.id == Some(id));
        }
        let nodes = p.nodes;
        if exists|i: int| 0 <= i < nodes.len() && has_id(nodes[i], id) {
            let w = choose|i: int| 0 <= i < nodes.len() && has_id(nodes[i], id);
            lemma_first_exists(nodes, id, w);
        }
    }
}

/// Every element found by class name is a tag with that class, whether classes are tracked
/// or not: the class table of a successful parse lists only such tags, and without the
/// table exactly the tags with that class are listed.
pub proof fn lemma_found_by_class(s: Seq<u8>, track_classes: bool, track_ids: bool, c: Seq<u8>)
    ensures
        sp_parse(s, track_classes, track_ids) matches Ok(p) ==> {
            &&& p.classes.contains_key(c) ==> forall|j: int|
                0 <= j < p.classes[c].len() ==> 0 <= #[trigger] p.classes[c][j] < p.nodes.len()
                    && sel_matches(SelectorV::Class(c), p.nodes[p.classes[c][j] as int])
            &&& forall|k: int|
                0 <= k < matching(p.nodes, SelectorV::Class(c)).len() ==> #[trigger] matching(
                    p.nodes,
                    SelectorV::Class(c),
                )[k] < p.nodes.len() && sel_matches(
                    SelectorV::Class(c),
                    p.nodes[matching(p.nodes, SelectorV::Class(c))[k] as int],
                )
        },
{
    lemma_parse_tables(s, track_classes, track_ids);
    if let Ok(p) = sp_parse(s, track_classes, track_ids) {
        lemma_sp_single_end(s, track_classes, track_ids, initial_state());
        lemma_matching(p.nodes, SelectorV::Class(c));
        if p.classes.contains_key(c) {
            assert forall|j: int| 0 <= j < p.classes[c].len() implies 0 <= #[trigger] p.classes[c][j]
                < p.nodes.len() && sel_matches(SelectorV::Class(c), p.nodes[p.classes[c][j] as int]) by {
                assert(attrs_of(p.nodes, p.classes[c][j] as int) matches Some(a) && class_member(a, c));
            }
        }
    }
}

/// Where some node has id `id`, a first one does.
proof fn lemma_first_exists(nodes: Seq<NodeV>, id: Seq<u8>, w: int)
    requires
        0 <= w < nodes.len(),
        has_id(nodes[w], id),
    ensures
        exists|i: int|
            0 <= i < nodes.len() && has_id(nodes[i], id) && forall|j: int|
                0 <= j < i ==> !has_id(#[trigger] nodes[j], id),
    decreases w,
{
    if exists|j: int| 0 <= j < w && has_id(nodes[j], id) {
        let j = choose|j: int| 0 <= j < w && has_id(nodes[j], id);
        lemma_first_exists(nodes, id, j);
    } else {
        assert(forall|j: int| 0 <= j < w ==> !has_id(#[trigger] nodes[j], id));
    }
}

/// A parsed document.
pub struct VDom<'a> {
    parser: Parser<'a>,
}

impl<'a> VDom<'a> {
    /// The parser that produced the document.
    pub closed spec fn spec_parser(&self) -> Parser<'a> {
        self.parser
    }

    /// The document of a finished parse.
    pub fn from(parser: Parser<'a>) -> (d: Self)
        ensures
            d.spec_parser() == parser,
    {
        VDom { parser }
    }

    /// The parser that produced the document.
    pub fn parser(&self) -> (p: &Parser<'a>)
        ensures
            *p == self.spec_parser(),
    {
        &self.parser
    }

    /// All nodes, in document order.
    pub fn nodes(&self) -> (n: &[Node<'a>])
        ensures
            n@ == self.spec_parser().tags@,
    {
        self.parser.tags.as_slice()
    }

    /// The top-level nodes.
    pub fn children(&self) -> (c: &[NodeHandle])
        ensures
            c@ == self.spec_parser().ast@,
    {
        self.parser.ast.as_slice()
    }

    /// The HTML version the document declared.
    pub fn version(&self) -> (v: Option<HTMLVersion>)
        ensures
            v == self.spec_parser().version,
    {
        self.parser.version
    }

    /// The first tag with the given id: found in the id table where ids are tracked,
    /// else by looking at every node in order.
    pub fn get_element_by_id(&self, id: &str) -> (r: Option<NodeHandle>)
        ensures
            self.spec_parser().options.tracks_ids() ==> match self.spec_parser()@.ids.get(
                id.spec_bytes(),
            ) {
                Some(h) => r == Some(NodeHandle(h)),
                None => r is None,
            },
            !self.spec_parser().options.tracks_ids() ==> match first_with_id(
                self.spec_parser()@.nodes,
                id.spec_bytes(),
            ) {
                Some(i) => r == Some(NodeHandle(i as u32)),
                None => r is None,
            },
    {
        let key = id.as_bytes();
        if self.parser.options.is_tracking_ids() {
            let r = match self.parser.ids.get(key) {
                Some(h) => Some(*h),
                None => None,
            };
            proof {
                let m = self.parser@.ids;
                if self.parser.ids.get_spec(key@) is Some {
                    assert(m.contains_key(key@));
                    assert(m.get(key@) == Some(m[key@]));
                } else {
                    assert(!m.contains_key(key@));
                }
            }
            return r;
        }
        let ghost nodes = self.parser@.nodes;
        let n = self.parser.tags.len();
        let mut i: usize = 0;
        while i < n
            invariant
                n == self.parser.tags@.len(),
                !self.parser.options.tracks_ids(),
                key@ == id.spec_bytes(),
                nodes == self.parser@.nodes,
                i <= n,
                forall|j: int| 0 <= j < i ==> !has_id(#[trigger] nodes[j], key@),
            decreases n - i,
        {
            let found = match &self.parser.tags[i] {
                Node::Tag(t) => match t.attributes.id {
                    Some(v) => crate::scan::bytes_eq(v, key),
                    None => false,
                },
                _ => false,
            };
            proof {
                assert(nodes[i as int] == self.parser.tags@[i as int]@);
            }
            if found {
                proof {
                    lemma_first_with_id(nodes, key@, i as int);
                }
                return Some(NodeHandle(i as u32));
            }
            i = i + 1;
        }
        None
    }

    /// The nodes, in document order, that the selector read from `selector` matches;
    /// `None` where `selector` holds no selector.
    pub fn query_selector(&self, selector: &str) -> (r: Option<Vec<NodeHandle>>)
        ensures
            match sp_sel(selector.spec_bytes(), 0) {
                None => r is None,
                Some(x) => r matches Some(v) && handles(v@) == matching(
                    self.spec_parser()@.nodes,
                    x.0,
                ),
            },
    {
        let sel = match crate::parse_query_selector(selector) {
            Some(s) => s,
            None => {
                return None;
            },
        };
        let ghost nodes = self.parser@.nodes;
        let n = self.parser.tags.len();
        let mut out: Vec<NodeHandle> = Vec::new();
        let mut i: usize = 0;
        while i < n
            invariant
                n == self.parser.tags@.len(),
                nodes == self.parser@.nodes,
                n == nodes.len(),
                i <= n,
                handles(out@) == matching(nodes.take(i as int), sel@),
            decreases n - i,
        {
            proof {
                assert(nodes[i as int] == self.parser.tags@[i as int]@);
                assert(nodes.take(i + 1).drop_last() =~= nodes.take(i as int));
            }
            if sel.matches(&self.parser.tags[i]) {
                out.push(NodeHandle(i as u32));
                proof {
                    assert(handles(out@) =~= handles(out@.drop_last()).push(i as u32));
                }
            }
            i = i + 1;
        }
        proof {
            assert(nodes.take(n as int) =~= nodes);
        }
        Some(out)
    }

    /// The tags that have class `member`: those recorded in the class table where classes
    /// are tracked, else every tag whose class list has the word `member`, in document
    /// order.
    pub fn get_elements_by_class_name(&self, member: &str) -> (r: Vec<NodeHandle>)
        ensures
            self.spec_parser().options.tracks_classes() ==> match self.spec_parser()@.classes.get(
                member.spec_bytes(),
            ) {
                Some(hs) => handles(r@) == hs,
                None => r@.len() == 0,
            },
            !self.spec_parser().options.tracks_classes() ==> handles(r@) == matching(
                self.spec_parser()@.nodes,
                SelectorV::Class(member.spec_bytes()),
            ),
    {
        let key = member.as_bytes();
        let mut out: Vec<NodeHandle> = Vec::new();
        if self.parser.options.is_tracking_classes() {
            match self.parser.classes.get(key) {
                Some(hs) => {
                    let mut j: usize = 0;
                    while j < hs.len()
                        invariant
                            j <= hs@.len(),
                            out@ == hs@.take(j as int),
                        decreases hs@.len() - j,
                    {
                        out.push(hs[j]);
                        proof {
                            assert(out@ =~= hs@.take(j + 1));
                        }
                        j = j + 1;
                    }
                    proof {
                        assert(out@ =~= hs@);
                        let m = self.parser@.classes;
                        assert(m.contains_key(key@));
                        assert(m.get(key@) == Some(m[key@]));
                    }
                },
                None => {
                    proof {
                        assert(!self.parser@.classes.contains_key(key@));
                    }
                },
            }
            return out;
        }
        let ghost nodes = self.parser@.nodes;
        let ghost sel = SelectorV::Class(key@);
        let n = self.parser.tags.len();
        let mut i: usize = 0;
        while i < n
            invariant
                n == self.parser.tags@.len(),
                nodes == self.parser@.nodes,
                n == nodes.len(),
                sel == SelectorV::Class(key@),
                i <= n,
                handles(out@) == matching(nodes.take(i as int), sel),
            decreases n - i,
        {
            proof {
                assert(nodes[i as int] == self.parser.tags@[i as int]@);
                assert(nodes.take(i + 1).drop_last() =~= nodes.take(i as int));
            }
            let member_here = match &self.parser.tags[i] {
                Node::Tag(t) => t.attributes.is_class_member(key),
                _ => false,
            };
            if member_here {
                out.push(NodeHandle(i as u32));
                proof {
                    assert(handles(out@) =~= handles(out@.drop_last()).push(i as u32));
                }
            }
            i = i + 1;
        }
        proof {
            assert(nodes.take(n as int) =~= nodes);
        }
        out
    }
}

} // verus!
