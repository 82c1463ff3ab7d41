//! The HTML parser: what each of its steps does to the parse state, and the parser.
use vstd::prelude::*;
use crate::errors::ParseError;
use crate::document::{attr_at, doctype_name, html_name, lemma_attr_at, parse_attr_at};
use crate::parser::tag::{AttrsV, NodeV, TagV, empty_attrs_v, handles, opt_bytes, Attributes, HTMLTag, Node, NodeHandle};
use crate::parser::options::ParserOptions;
use crate::stream::Stream;
use crate::bytemap::BytesMap;
use vstd::string::StringSliceAdditionalSpecFns;
use crate::scan::{
    attr_key_kind, attr_key_kind_spec, byte_at_eq, is_void_tag, len_fits_u32, scan_html_event, bytes_eq, ci_eq, is_closing, next_ascii_token, close_search, comment_close, count_while2, find,
    find_comment_end, html_event, in_run, is_void_tag_name, lemma_close_search,
    lemma_close_search_none, lemma_next_token, lemma_occurs_shift, lemma_run_end,
    lemma_run_end_shift, lemma_run_end_unique, next_token, occurs_at, run_end,
    search_non_ident, Run, BANG, DASH, GT, LF, SLASH, SPACE,
};
use vstd::slice::slice_subrange;

verus! {

/// The HTML version a document declares.
#[derive(Debug, Clone, Copy, PartialEq, Eq, Structural)]
pub enum HTMLVersion {
    /// HTML Version 5
    HTML5,
    /// Strict HTML 4.01
    StrictHTML401,
    /// Transitional HTML 4.01
    TransitionalHTML401,
    /// Frameset HTML 4.01
    FramesetHTML401,
}

/// The state of a parse: the position, the nodes, the open tags, the top-level nodes,
/// the id and class tables and the declared version.
pub struct ParserV {
    pub idx: int,
    pub nodes: Seq<NodeV>,
    pub stack: Seq<u32>,
    pub ast: Seq<u32>,
    pub ids: Map<Seq<u8>, u32>,
    pub classes: Map<Seq<u8>, Seq<u32>>,
    pub version: Option<HTMLVersion>,
}

/// The state of a parse that has not started.
pub open spec fn initial_state() -> ParserV {
    ParserV {
        idx: 0,
        nodes: seq![],
        stack: seq![],
        ast: seq![],
        ids: Map::empty(),
        classes: Map::empty(),
        version: None,
    }
}

/// Where a run of spaces and line feeds from `i` ends.
pub open spec fn blank_end(s: Seq<u8>, i: int) -> int {
    run_end(s, i, Run::Either(SPACE, LF))
}

pub open spec fn with_idx(p: ParserV, i: int) -> ParserV {
    ParserV { idx: i, ..p }
}

/// Adds node `h` as the last child of the innermost open tag, or as a top-level node.
pub open spec fn sp_add(p: ParserV, h: u32) -> ParserV {
    if p.stack.len() == 0 {
        ParserV { ast: p.ast.push(h), ..p }
    } else {
        let top = p.stack.last() as int;
        match p.nodes[top] {
            NodeV::Tag(t) => ParserV {
                nodes: p.nodes.update(top, NodeV::Tag(TagV { children: t.children.push(h), ..t })),
                ..p
            },
            _ => p,
        }
    }
}

/// Appends node `n` and adds it to its parent.
pub open spec fn sp_register_add(p: ParserV, n: NodeV) -> ParserV {
    sp_add(ParserV { nodes: p.nodes.push(n), ..p }, p.nodes.len() as u32)
}

/// The attributes of an opening tag from `i`, and where reading them stopped. The list ends
/// at `/` or `>`; it is `None` where the input ends first. Blanks between attributes are
/// skipped, and so is a byte that starts no attribute; after a value one byte (its closing
/// quote or a blank) is skipped unless it is `/` or `>`. Of repeated names the last wins.
pub open spec fn sp_attrs(s: Seq<u8>, i: int, a: AttrsV) -> (Option<AttrsV>, int)
    decreases s.len() - i,
{
    if i < 0 || i > s.len() || s.len() > usize::MAX {
        (None, i)
    } else {
        let i1 = blank_end(s, i);
        proof {
            lemma_run_end(s, i, Run::Either(SPACE, LF));
        }
        if i1 >= s.len() {
            (None, i1)
        } else if s[i1] == SLASH || s[i1] == GT {
            (Some(a), i1)
        } else {
            match attr_at(s, i1) {
                None => sp_attrs(s, i1 + 1, a),
                Some(at) => {
                    proof {
                        lemma_attr_at(s, i1);
                    }
                    let key = s.subrange(at.name_start as int, at.name_start + at.name_len);
                    let value = if at.has_value != 0 {
                        Some(s.subrange(at.value_start as int, at.value_start + at.value_len))
                    } else {
                        None
                    };
                    let kind = attr_key_kind_spec(key);
                    let a2 = if kind == 1 {
                        AttrsV { id: value, ..a }
                    } else if kind == 2 {
                        AttrsV { class: value, ..a }
                    } else {
                        AttrsV { raw: a.raw.insert(key, value), ..a }
                    };
                    let n = at.next_idx as int;
                    if n >= s.len() {
                        (None, n)
                    } else {
                        let i2 = if at.has_value != 0 && !(s[n] == SLASH || s[n] == GT) {
                            n + 1
                        } else {
                            n
                        };
                        sp_attrs(s, i2, a2)
                    }
                },
            }
        }
    }
}

/// Records node `h` under each word of the class list `c` from position `i`.
pub open spec fn sp_class_fold(classes: Map<Seq<u8>, Seq<u32>>, c: Seq<u8>, i: int, h: u32) -> Map<
    Seq<u8>,
    Seq<u32>,
>
    decreases c.len() - i,
{
    if i < 0 || i > c.len() {
        classes
    } else {
        match next_token(c, i) {
            None => classes,
            Some(t) => {
                proof {
                    lemma_next_token(c, i);
                }
                let key = c.subrange(t.0, t.0 + t.1);
                let cl2 = if classes.contains_key(key) {
                    classes.insert(key, classes[key].push(h))
                } else {
                    classes.insert(key, seq![h])
                };
                sp_class_fold(cl2, c, t.2, h)
            },
        }
    }
}

/// A closing tag, the cursor on its `/`: the name runs to `>`; where it equals the name of
/// the innermost open tag, that tag is closed, its source text extended to here, and its
/// id and classes recorded in the tables that the options enable.
pub open spec fn sp_read_end(s: Seq<u8>, tc: bool, ti: bool, p: ParserV) -> ParserV {
    let i0 = p.idx + 1;
    let e = run_end(s, i0, Run::Until(GT));
    let name = s.subrange(i0, e);
    let i1 = if e < s.len() && s[e] == GT {
        e + 1
    } else {
        e
    };
    let p1 = with_idx(p, i1);
    if p.stack.len() == 0 {
        p1
    } else {
        let h = p.stack.last();
        match p.nodes[h as int] {
            NodeV::Tag(t) => {
                if t.name == name {
                    let t2 = TagV { raw: s.subrange(t.raw_start, i1), ..t };
                    let classes = if tc {
                        match t.attrs.class {
                            Some(c) => sp_class_fold(p.classes, c, 0, h),
                            None => p.classes,
                        }
                    } else {
                        p.classes
                    };
                    let ids = if ti {
                        match t.attrs.id {
                            Some(id) => p.ids.insert(id, h),
                            None => p.ids,
                        }
                    } else {
                        p.ids
                    };
                    ParserV {
                        idx: i1,
                        nodes: p.nodes.update(h as int, NodeV::Tag(t2)),
                        stack: p.stack.drop_last(),
                        classes,
                        ids,
                        ..p
                    }
                } else {
                    p1
                }
            },
            _ => p1,
        }
    }
}

/// `--`
pub open spec fn comment_open() -> Seq<u8> {
    seq![DASH, DASH]
}

/// A declaration, the cursor on its `!`: a comment (`<!--`) becomes a node that runs to
/// the first `-->` (an empty node, the cursor left after `!`, where there is none); else
/// the word must be `doctype` (in any case) and a value `html` (in any case) declares
/// HTML 5. The boolean is false where the doctype has no value.
pub open spec fn sp_markdown(s: Seq<u8>, p: ParserV) -> Result<(bool, ParserV), ParseError> {
    let start = p.idx - 1;
    let i = p.idx + 1;
    let two = s.subrange(
        i,
        if i + 2 <= s.len() {
            i + 2
        } else {
            s.len() as int
        },
    );
    if two == comment_open() {
        match close_search(s, i) {
            Some(e) => Ok((true, sp_register_add(with_idx(p, e), NodeV::Comment(s.subrange(start, e))))),
            None => Ok((true, sp_register_add(with_idx(p, i), NodeV::Comment(seq![])))),
        }
    } else {
        let e = run_end(s, i, Run::Ident);
        if e == i {
            Err(ParseError::UnsupportedAssemblySyntax)
        } else if !ci_eq(s.subrange(i, e), doctype_name()) {
            Err(ParseError::UnsupportedAssemblySyntax)
        } else {
            let j = blank_end(s, e);
            let e2 = run_end(s, j, Run::Ident);
            if e2 == j {
                Ok((false, with_idx(p, j)))
            } else {
                let version = if ci_eq(s.subrange(j, e2), html_name()) {
                    Some(HTMLVersion::HTML5)
                } else {
                    p.version
                };
                let k = blank_end(s, e2);
                Ok((true, ParserV { idx: k + 1, version, ..p }))
            }
        }
    }
}

/// Whether the tag at `idx` (on its `<`) is read to its end: a closing tag or a
/// declaration, or an opening tag with a name, its attributes and its `>`. It is not where
/// the input ends after the `<`, where no name follows, or where an opening tag is cut
/// short.
pub open spec fn sp_tag_complete(s: Seq<u8>, idx: int) -> bool {
    let i = blank_end(s, idx + 1);
    if i >= s.len() {
        false
    } else if s[i] == SLASH || s[i] == BANG {
        true
    } else {
        let e = run_end(s, i, Run::Ident);
        if e == i {
            false
        } else {
            let (attrs, k) = sp_attrs(s, blank_end(s, e), empty_attrs_v());
            match attrs {
                None => false,
                Some(_) => {
                    let k2 = if k < s.len() && s[k] == SLASH {
                        k + 1
                    } else {
                        k
                    };
                    k2 < s.len() && s[k2] == GT
                },
            }
        }
    }
}

/// A tag, the cursor on its `<`: blanks may follow the `<`; then a closing tag, a
/// declaration, or an opening tag: a name, blanks, attributes, an optional `/` and `>`.
/// An opening tag that is cut short (no name, the input ends, no `>`) produces no node. A
/// complete one becomes a node whose source text runs from `<` to `>`, added to its parent,
/// and, unless it ends with `/` or is void, opened.
pub open spec fn sp_tag(s: Seq<u8>, tc: bool, ti: bool, p: ParserV) -> Result<ParserV, ParseError> {
    let start = p.idx;
    let i = blank_end(s, p.idx + 1);
    if i >= s.len() {
        Ok(with_idx(p, i))
    } else if s[i] == SLASH {
        Ok(sp_read_end(s, tc, ti, with_idx(p, i)))
    } else if s[i] == BANG {
        match sp_markdown(s, with_idx(p, i)) {
            Ok(r) => Ok(r.1),
            Err(e) => Err(e),
        }
    } else {
        let e = run_end(s, i, Run::Ident);
        if e == i {
            Ok(with_idx(p, i))
        } else {
            let name = s.subrange(i, e);
            let j = blank_end(s, e);
            let (attrs, k) = sp_attrs(s, j, empty_attrs_v());
            match attrs {
                None => Ok(with_idx(p, k)),
                Some(a) => {
                    let sc = k < s.len() && s[k] == SLASH;
                    let k2 = if sc {
                        k + 1
                    } else {
                        k
                    };
                    if !(k2 < s.len() && s[k2] == GT) {
                        Ok(with_idx(p, k2))
                    } else {
                        let k3 = k2 + 1;
                        let h = p.nodes.len() as u32;
                        let tag = TagV {
                            name,
                            attrs: a,
                            children: seq![],
                            raw: s.subrange(start, k3),
                            raw_start: start,
                        };
                        let p2 = sp_register_add(with_idx(p, k3), NodeV::Tag(tag));
                        if !sc && !is_void_tag_name(name) {
                            Ok(ParserV { stack: p2.stack.push(h), ..p2 })
                        } else {
                            Ok(p2)
                        }
                    }
                },
            }
        }
    }
}

} // verus!

verus! {

/// A parse state that the parser can be in: the input fits `u32`, the cursor is at most
/// one past the end, there are no more nodes than bytes read, and every open tag is a tag
/// node that starts before the cursor.
pub open spec fn pwf(s: Seq<u8>, p: ParserV) -> bool {
    &&& s.len() <= u32::MAX
    &&& s.len() < usize::MAX
    &&& 0 <= p.idx <= s.len() + 1
    &&& p.nodes.len() <= p.idx
    &&& forall|k: int|
        0 <= k < p.stack.len() ==> {
            let h = #[trigger] p.stack[k] as int;
            &&& 0 <= h < p.nodes.len()
            &&& p.nodes[h] is Tag
            &&& 0 <= p.nodes[h]->Tag_0.raw_start <= p.idx
        }
}

/// Adding a node keeps the stack and the node kinds.
pub proof fn lemma_sp_add(p: ParserV, h: u32)
    requires
        p.stack.len() > 0 ==> 0 <= p.stack.last() < p.nodes.len(),
    ensures
        sp_add(p, h).stack == p.stack,
        sp_add(p, h).idx == p.idx,
        sp_add(p, h).nodes.len() == p.nodes.len(),
        sp_add(p, h).version == p.version,
        forall|k: int|
            0 <= k < p.nodes.len() ==> (#[trigger] sp_add(p, h).nodes[k] is Tag) == (p.nodes[k] is Tag)
                && (p.nodes[k] is Tag ==> sp_add(p, h).nodes[k]->Tag_0.raw_start
                == p.nodes[k]->Tag_0.raw_start),
{
}

/// A registered node keeps the state well formed where the cursor has moved past it.
pub proof fn lemma_register_add(s: Seq<u8>, p: ParserV, n: NodeV, i: int)
    requires
        pwf(s, p),
        p.idx < i <= s.len() + 1,
        p.idx <= s.len(),
    ensures
        pwf(s, sp_register_add(with_idx(p, i), n)),
        sp_register_add(with_idx(p, i), n).nodes.len() == p.nodes.len() + 1,
        sp_register_add(with_idx(p, i), n).nodes[p.nodes.len() as int] == n,
        sp_register_add(with_idx(p, i), n).stack == p.stack,
{
    let q = ParserV { nodes: p.nodes.push(n), ..with_idx(p, i) };
    if p.stack.len() > 0 {
        assert(p.stack[p.stack.len() - 1] == p.stack.last());
    }
    lemma_sp_add(q, p.nodes.len() as u32);
    let r = sp_register_add(with_idx(p, i), n);
    assert forall|k: int| 0 <= k < r.stack.len() implies {
        let h = #[trigger] r.stack[k] as int;
        &&& 0 <= h < r.nodes.len()
        &&& r.nodes[h] is Tag
        &&& 0 <= r.nodes[h]->Tag_0.raw_start <= r.idx
    } by {
        let h = r.stack[k] as int;
        assert(p.stack[k] == r.stack[k]);
        assert(q.nodes[h] == p.nodes[h]);
    }
    if p.stack.len() != 0 {
        let top = p.stack.last() as int;
        assert(p.stack[p.stack.len() - 1] == p.stack.last());
        assert(0 <= top < p.nodes.len());
        assert(r.nodes[p.nodes.len() as int] == q.nodes[p.nodes.len() as int]);
    }
}

/// Where the attribute list ends.
pub proof fn lemma_sp_attrs(s: Seq<u8>, i: int, a: AttrsV)
    requires
        0 <= i <= s.len(),
        s.len() <= usize::MAX,
    ensures
        i <= sp_attrs(s, i, a).1 <= s.len(),
        sp_attrs(s, i, a).0 is Some ==> sp_attrs(s, i, a).1 < s.len() && (s[sp_attrs(s, i, a).1]
            == SLASH || s[sp_attrs(s, i, a).1] == GT),
    decreases s.len() - i,
{
    lemma_run_end(s, i, Run::Either(SPACE, LF));
    let i1 = blank_end(s, i);
    if i1 < s.len() && !(s[i1] == SLASH || s[i1] == GT) {
        match attr_at(s, i1) {
            None => {
                lemma_sp_attrs(s, i1 + 1, a);
            },
            Some(at) => {
                lemma_attr_at(s, i1);
                let key = s.subrange(at.name_start as int, at.name_start + at.name_len);
                let value = if at.has_value != 0 {
                    Some(s.subrange(at.value_start as int, at.value_start + at.value_len))
                } else {
                    None
                };
                let kind = attr_key_kind_spec(key);
                let a2 = if kind == 1 {
                    AttrsV { id: value, ..a }
                } else if kind == 2 {
                    AttrsV { class: value, ..a }
                } else {
                    AttrsV { raw: a.raw.insert(key, value), ..a }
                };
                let n = at.next_idx as int;
                if n < s.len() {
                    let i2 = if at.has_value != 0 && !(s[n] == SLASH || s[n] == GT) {
                        n + 1
                    } else {
                        n
                    };
                    lemma_sp_attrs(s, i2, a2);
                }
            },
        }
    }
}

/// A tag step moves the cursor forward and keeps the state well formed.
pub proof fn lemma_sp_tag(s: Seq<u8>, tc: bool, ti: bool, p: ParserV)
    requires
        pwf(s, p),
        p.idx < s.len(),
    ensures
        sp_tag(s, tc, ti, p) matches Ok(p2) ==> p.idx < p2.idx && pwf(s, p2),
{
    lemma_run_end(s, p.idx + 1, Run::Either(SPACE, LF));
    let i = blank_end(s, p.idx + 1);
    if i < s.len() {
        if s[i] == SLASH {
            let q = with_idx(p, i);
            let i0 = i + 1;
            lemma_run_end(s, i0, Run::Until(GT));
            let e = run_end(s, i0, Run::Until(GT));
            let r = sp_read_end(s, tc, ti, q);
            if q.stack.len() != 0 {
                let h = q.stack.last();
                assert(q.stack[q.stack.len() - 1] == h);
                if let NodeV::Tag(t) = q.nodes[h as int] {
                    if t.name == s.subrange(i0, e) {
                        assert forall|k: int| 0 <= k < r.stack.len() implies {
                            let g = #[trigger] r.stack[k] as int;
                            &&& 0 <= g < r.nodes.len()
                            &&& r.nodes[g] is Tag
                            &&& 0 <= r.nodes[g]->Tag_0.raw_start <= r.idx
                        } by {
                            assert(r.stack[k] == q.stack[k]);
                        }
                    }
                }
            }
        } else if s[i] == BANG {
            let q = with_idx(p, i);
            let j = i + 1;
            let two = s.subrange(
                j,
                if j + 2 <= s.len() {
                    j + 2
                } else {
                    s.len() as int
                },
            );
            if two == comment_open() {
                match close_search(s, j) {
                    Some(e) => {
                        lemma_close_search_bounds(s, j);
                        lemma_register_add(s, p, NodeV::Comment(s.subrange(i - 1, e)), e);
                    },
                    None => {
                        lemma_register_add(s, p, NodeV::Comment(seq![]), j);
                    },
                }
            } else {
                lemma_run_end(s, j, Run::Ident);
                let e = run_end(s, j, Run::Ident);
                lemma_run_end(s, e, Run::Either(SPACE, LF));
                let jj = blank_end(s, e);
                lemma_run_end(s, jj, Run::Ident);
                let e2 = run_end(s, jj, Run::Ident);
                lemma_run_end(s, e2, Run::Either(SPACE, LF));
            }
        } else {
            lemma_run_end(s, i, Run::Ident);
            let e = run_end(s, i, Run::Ident);
            if e != i {
                let name = s.subrange(i, e);
                lemma_run_end(s, e, Run::Either(SPACE, LF));
                let j = blank_end(s, e);
                lemma_sp_attrs(s, j, empty_attrs_v());
                let (attrs, k) = sp_attrs(s, j, empty_attrs_v());
                if let Some(a) = attrs {
                    let sc = k < s.len() && s[k] == SLASH;
                    let k2 = if sc {
                        k + 1
                    } else {
                        k
                    };
                    if k2 < s.len() && s[k2] == GT {
                        let k3 = k2 + 1;
                        let h = p.nodes.len() as u32;
                        let tag = TagV {
                            name,
                            attrs: a,
                            children: seq![],
                            raw: s.subrange(p.idx, k3),
                            raw_start: p.idx,
                        };
                        lemma_register_add(s, p, NodeV::Tag(tag), k3);
                        let p2 = sp_register_add(with_idx(p, k3), NodeV::Tag(tag));
                        let p3 = ParserV { stack: p2.stack.push(h), ..p2 };
                        assert forall|m: int| 0 <= m < p3.stack.len() implies {
                            let g = #[trigger] p3.stack[m] as int;
                            &&& 0 <= g < p3.nodes.len()
                            &&& p3.nodes[g] is Tag
                            &&& 0 <= p3.nodes[g]->Tag_0.raw_start <= p3.idx
                        } by {
                            if m < p2.stack.len() {
                                assert(p3.stack[m] == p2.stack[m]);
                            }
                        }
                    }
                }
            }
        }
    }
}

/// A found comment end lies after the search start and within the input.
pub proof fn lemma_close_search_bounds(s: Seq<u8>, j: int)
    requires
        0 <= j,
    ensures
        close_search(s, j) matches Some(e) ==> j + 3 <= e <= s.len(),
    decreases s.len() - j,
{
    if j + 3 <= s.len() && !crate::scan::occurs_at(s, crate::scan::comment_close(), j) {
        lemma_close_search_bounds(s, j + 1);
    }
}

/// The parse from state `p` to the end of the input: text runs and tags in turn.
pub open spec fn sp_single(s: Seq<u8>, tc: bool, ti: bool, p: ParserV) -> Result<ParserV, ParseError>
    decreases s.len() + 1 - p.idx,
{
    if !pwf(s, p) {
        Ok(p)
    } else {
        let ev = html_event(s, p.idx);
        if ev.0 == 0 {
            Ok(p)
        } else if ev.0 == 1 {
            proof {
                lemma_run_end(s, p.idx, Run::Until(crate::scan::LT));
                lemma_register_add(s, p, NodeV::Raw(s.subrange(ev.1, ev.1 + ev.2)), ev.1 + ev.2);
            }
            sp_single(
                s,
                tc,
                ti,
                sp_register_add(with_idx(p, ev.1 + ev.2), NodeV::Raw(s.subrange(ev.1, ev.1 + ev.2))),
            )
        } else {
            match sp_tag(s, tc, ti, p) {
                Ok(p2) => {
                    proof {
                        lemma_sp_tag(s, tc, ti, p);
                    }
                    sp_single(s, tc, ti, p2)
                },
                Err(e) => Err(e),
            }
        }
    }
}

/// The parse of a whole input with the options' tables: an input longer than `u32::MAX`
/// bytes (or, on a platform where `usize` has 32 bits, one that fills the address space) is
/// refused.
pub open spec fn sp_parse(s: Seq<u8>, track_classes: bool, track_ids: bool) -> Result<
    ParserV,
    ParseError,
> {
    if s.len() > u32::MAX || s.len() >= usize::MAX {
        Err(ParseError::InvalidLength)
    } else {
        sp_single(s, track_classes, track_ids, initial_state())
    }
}

} // verus!

verus! {

/// The HTML parser.
///
/// Nodes are kept in one list in the order in which they are read; tags hold the indices
/// of their children. Only [`crate::parse`] constructs a parser.
pub struct Parser<'a> {
    /// The cursor over the input.
    pub stream: Stream<'a>,
    /// The open tags, innermost last.
    pub stack: Vec<NodeHandle>,
    /// The options.
    pub options: ParserOptions,
    /// All nodes, in the order in which they were read.
    pub tags: Vec<Node<'a>>,
    /// The top-level nodes.
    pub ast: Vec<NodeHandle>,
    /// The node of each tracked id.
    pub ids: BytesMap<'a, NodeHandle>,
    /// The nodes of each tracked class.
    pub classes: BytesMap<'a, Vec<NodeHandle>>,
    /// The declared HTML version.
    pub version: Option<HTMLVersion>,
}

impl<'a> View for Parser<'a> {
    type V = ParserV;

    open spec fn view(&self) -> ParserV {
        ParserV {
            idx: self.stream.idx as int,
            nodes: self.tags@.map_values(|n: Node<'a>| n@),
            stack: handles(self.stack@),
            ast: handles(self.ast@),
            ids: Map::new(
                |k: Seq<u8>| self.ids.get_spec(k) is Some,
                |k: Seq<u8>| self.ids.get_spec(k).unwrap().0,
            ),
            classes: Map::new(
                |k: Seq<u8>| self.classes.get_spec(k) is Some,
                |k: Seq<u8>| handles(self.classes.get_spec(k).unwrap()@),
            ),
            version: self.version,
        }
    }
}

impl<'a> Parser<'a> {
    /// The input.
    pub open spec fn input(&self) -> Seq<u8> {
        self.stream.data@
    }

    /// The parser is in a state that parsing can reach.
    pub open spec fn wf(&self) -> bool {
        pwf(self.input(), self@)
    }

    /// A parser at the start of `input`.
    pub fn new(input: &'a str, options: ParserOptions) -> (p: Self)
        ensures
            p@ == initial_state(),
            p.input() == input.spec_bytes(),
            p.options == options,
    {
        let bytes = input.as_bytes();
        let node_capacity = if bytes.len() / 48 < 8 {
            8
        } else if bytes.len() / 48 > 256 {
            256
        } else {
            bytes.len() / 48
        };
        let p = Parser {
            stream: Stream::new(bytes),
            stack: Vec::with_capacity(16),
            options,
            tags: Vec::with_capacity(node_capacity),
            ast: Vec::with_capacity(8),
            ids: BytesMap::new(),
            classes: BytesMap::new(),
            version: None,
        };
        assert(p@.nodes =~= initial_state().nodes);
        assert(p@.stack =~= initial_state().stack);
        assert(p@.ast =~= initial_state().ast);
        assert(p@.ids =~= initial_state().ids);
        assert(p@.classes =~= initial_state().classes);
        p
    }

    /// Appends a node and returns its handle.
    fn register_tag(&mut self, node: Node<'a>) -> (h: NodeHandle)
        requires
            old(self).tags@.len() <= u32::MAX,
        ensures
            final(self).tags@ == old(self).tags@.push(node),
            h.0 == old(self).tags@.len(),
            final(self).stream == old(self).stream,
            final(self).stack == old(self).stack,
            final(self).ast == old(self).ast,
            final(self).ids == old(self).ids,
            final(self).classes == old(self).classes,
            final(self).version == old(self).version,
            final(self).options == old(self).options,
    {
        self.tags.push(node);
        NodeHandle::new((self.tags.len() - 1) as u32)
    }

    /// Adds node `handle` to the innermost open tag, or to the top-level nodes.
    fn add_to_parent(&mut self, handle: NodeHandle)
        requires
            old(self).stack@.len() > 0 ==> {
                let top = old(self).stack@.last().0 as int;
                0 <= top < old(self).tags@.len() && old(self).tags@[top] is Tag
            },
        ensures
            final(self)@ == sp_add(old(self)@, handle.0),
            final(self).stream == old(self).stream,
            final(self).options == old(self).options,
            final(self).stack == old(self).stack,
            final(self).tags@.len() == old(self).tags@.len(),
    {
        let ghost old_nodes = self@.nodes;
        let ghost old_tags = self.tags@;
        if self.stack.len() > 0 {
            let last = self.stack[self.stack.len() - 1];
            let i = last.0 as usize;
            let ghost top = i as int;
            assert(handles(self.stack@).last() == last.0);
            let node = &mut self.tags[i];
            match node {
                Node::Tag(t) => {
                    t.children.push(handle);
                },
                _ => {},
            }
            proof {
                let t = old_nodes[top]->Tag_0;
                let ot = old_tags[top]->Tag_0;
                assert(self.tags@.len() == old_tags.len());
                assert(self.tags@[top] is Tag);
                let nt = self.tags@[top]->Tag_0;
                assert(nt.children@ == ot.children@.push(handle));
                assert(handles(nt.children@) =~= handles(ot.children@).push(handle.0));
                assert(nt@ == TagV { children: t.children.push(handle.0), ..t });
                assert(self@.nodes =~= old_nodes.update(
                    top,
                    NodeV::Tag(TagV { children: t.children.push(handle.0), ..t }),
                ));
            }
        } else {
            self.ast.push(handle);
            assert(self@.ast =~= old(self)@.ast.push(handle.0));
        }
    }
}

} // verus!

verus! {

impl<'a> Parser<'a> {
    /// Skips spaces and line feeds.
    fn skip_whitespaces(&mut self)
        requires
            old(self).stream.idx <= old(self).input().len(),
        ensures
            final(self).stream.idx == blank_end(old(self).input(), old(self).stream.idx as int),
            final(self).stream.data == old(self).stream.data,
            final(self).tags == old(self).tags,
            final(self).stack == old(self).stack,
            final(self).ast == old(self).ast,
            final(self).ids == old(self).ids,
            final(self).classes == old(self).classes,
            final(self).version == old(self).version,
            final(self).options == old(self).options,
    {
        let start = self.stream.idx;
        let data = self.stream.data();
        let rest = slice_subrange(data, start, data.len());
        let skipped = count_while2(rest, [SPACE, LF]);
        proof {
            lemma_run_end_shift(data@, start as int, Run::Either(SPACE, LF));
            lemma_run_end(data@, start as int, Run::Either(SPACE, LF));
        }
        self.stream.idx = start + skipped;
    }

    /// Reads up to the next `needle` (or the end of input) and returns what was read.
    fn read_to(&mut self, needle: u8) -> (r: &'a [u8])
        requires
            old(self).stream.idx <= old(self).input().len(),
        ensures
            final(self).stream.idx == run_end(old(self).input(), old(self).stream.idx as int, Run::Until(needle)),
            r@ == old(self).input().subrange(old(self).stream.idx as int, final(self).stream.idx as int),
            final(self).stream.data == old(self).stream.data,
            final(self).tags == old(self).tags,
            final(self).stack == old(self).stack,
            final(self).ast == old(self).ast,
            final(self).ids == old(self).ids,
            final(self).classes == old(self).classes,
            final(self).version == old(self).version,
            final(self).options == old(self).options,
    {
        let start = self.stream.idx;
        let data = self.stream.data();
        let bytes = slice_subrange(data, start, data.len());
        let end = match find(bytes, needle) {
            Some(i) => i,
            None => data.len() - start,
        };
        proof {
            assert forall|k: int| start <= k < start + end implies in_run(
                Run::Until(needle),
                #[trigger] data@[k],
            ) by {
                assert(bytes@[k - start] == data@[k]);
            }
            if start + end < data@.len() {
                assert(bytes@[end as int] == data@[start + end]);
            }
            lemma_run_end_unique(data@, start as int, Run::Until(needle), start + end);
        }
        self.stream.idx = start + end;
        self.stream.slice(start, start + end)
    }

    /// Reads an identifier, where one starts at the cursor.
    fn read_ident(&mut self) -> (r: Option<&'a [u8]>)
        requires
            old(self).stream.idx <= old(self).input().len(),
        ensures
            ({
                let i = old(self).stream.idx as int;
                let e = run_end(old(self).input(), i, Run::Ident);
                if e == i {
                    r is None && final(self).stream.idx == old(self).stream.idx
                } else {
                    r matches Some(b) && b@ == old(self).input().subrange(i, e)
                        && final(self).stream.idx == e
                }
            }),
            final(self).stream.data == old(self).stream.data,
            final(self).tags == old(self).tags,
            final(self).stack == old(self).stack,
            final(self).ast == old(self).ast,
            final(self).ids == old(self).ids,
            final(self).classes == old(self).classes,
            final(self).version == old(self).version,
            final(self).options == old(self).options,
    {
        let start = self.stream.idx;
        let data = self.stream.data();
        let bytes = slice_subrange(data, start, data.len());
        let end = match search_non_ident(bytes) {
            Some(i) => i,
            None => data.len() - start,
        };
        proof {
            assert forall|k: int| start <= k < start + end implies in_run(
                Run::Ident,
                #[trigger] data@[k],
            ) by {
                assert(bytes@[k - start] == data@[k]);
            }
            if start + end < data@.len() {
                assert(bytes@[end as int] == data@[start + end]);
            }
            lemma_run_end_unique(data@, start as int, Run::Ident, start + end);
        }
        if end == 0 {
            return None;
        }
        self.stream.idx = start + end;
        Some(self.stream.slice(start, start + end))
    }

    /// Moves past the first `-->` from the cursor and returns the comment from `start`;
    /// without a `-->` it stays and returns nothing.
    fn skip_comment_with_start(&mut self, start: usize) -> (r: &'a [u8])
        requires
            start <= old(self).stream.idx <= old(self).input().len(),
        ensures
            match close_search(old(self).input(), old(self).stream.idx as int) {
                Some(e) => final(self).stream.idx == e && r@ == old(self).input().subrange(start as int, e),
                None => final(self).stream.idx == old(self).stream.idx && r@ == Seq::<u8>::empty(),
            },
            final(self).stream.data == old(self).stream.data,
            final(self).tags == old(self).tags,
            final(self).stack == old(self).stack,
            final(self).ast == old(self).ast,
            final(self).ids == old(self).ids,
            final(self).classes == old(self).classes,
            final(self).version == old(self).version,
            final(self).options == old(self).options,
    {
        let idx = self.stream.idx;
        let data = self.stream.data();
        let rest = slice_subrange(data, idx, data.len());
        let offset = find_comment_end(rest);
        match offset {
            Some(o) => {
                proof {
                    let m = o - 3;
                    assert forall|j: int| idx <= j < idx + m implies !occurs_at(
                        data@,
                        comment_close(),
                        j,
                    ) by {
                        lemma_occurs_shift(data@, idx as int, comment_close(), j - idx);
                    }
                    lemma_occurs_shift(data@, idx as int, comment_close(), m as int);
                    lemma_close_search(data@, idx as int, idx + m);
                }
                self.stream.advance_by(o);
                self.stream.slice(start, self.stream.idx)
            },
            None => {
                proof {
                    assert forall|j: int| idx <= j implies !occurs_at(data@, comment_close(), j) by {
                        lemma_occurs_shift(data@, idx as int, comment_close(), j - idx);
                    }
                    lemma_close_search_none(data@, idx as int);
                }
                let empty: &[u8] = &[];
                empty
            },
        }
    }
}

} // verus!

verus! {

impl<'a> Parser<'a> {
    /// Reads the attribute at the cursor, as [`attr_at`] describes it: its name and, where
    /// it has `=`, its value.
    fn parse_attribute(&mut self) -> (r: Option<(&'a [u8], Option<&'a [u8]>)>)
        ensures
            match attr_at(old(self).input(), old(self).stream.idx as int) {
                None => r is None && final(self).stream.idx == old(self).stream.idx,
                Some(a) => r matches Some(kv) && {
                    &&& kv.0@ == old(self).input().subrange(
                        a.name_start as int,
                        a.name_start + a.name_len,
                    )
                    &&& opt_bytes(kv.1) == if a.has_value != 0 {
                        Some(
                            old(self).input().subrange(
                                a.value_start as int,
                                a.value_start + a.value_len,
                            ),
                        )
                    } else {
                        None::<Seq<u8>>
                    }
                    &&& final(self).stream.idx == a.next_idx
                },
            },
            final(self).stream.data == old(self).stream.data,
            final(self).tags == old(self).tags,
            final(self).stack == old(self).stack,
            final(self).ast == old(self).ast,
            final(self).ids == old(self).ids,
            final(self).classes == old(self).classes,
            final(self).version == old(self).version,
            final(self).options == old(self).options,
    {
        let data = self.stream.data();
        let attr = match parse_attr_at(data, self.stream.idx) {
            Some(a) => a,
            None => {
                return None;
            },
        };
        proof {
            assert(data@.len() == data.len());
            lemma_attr_at(data@, self.stream.idx as int);
        }
        self.stream.idx = attr.next_idx;
        let name = self.stream.slice(attr.name_start, attr.name_start + attr.name_len);
        let value = if attr.has_value != 0 {
            Some(self.stream.slice(attr.value_start, attr.value_start + attr.value_len))
        } else {
            None
        };
        Some((name, value))
    }

    /// Reads the attribute list of an opening tag, as [`sp_attrs`] describes it.
    fn parse_attributes(&mut self) -> (r: Option<Attributes<'a>>)
        requires
            old(self).stream.idx <= old(self).input().len(),
        ensures
            ({
                let (ra, k) = sp_attrs(
                    old(self).input(),
                    old(self).stream.idx as int,
                    empty_attrs_v(),
                );
                &&& final(self).stream.idx == k
                &&& match ra {
                    None => r is None,
                    Some(a) => r matches Some(x) && x@ == a,
                }
            }),
            final(self).stream.data == old(self).stream.data,
            final(self).tags == old(self).tags,
            final(self).stack == old(self).stack,
            final(self).ast == old(self).ast,
            final(self).ids == old(self).ids,
            final(self).classes == old(self).classes,
            final(self).version == old(self).version,
            final(self).options == old(self).options,
    {
        let ghost s = self.input();
        let ghost i0 = self.stream.idx as int;
        let n = self.stream.len();
        let mut attributes = Attributes::new();
        assert(attributes@ == empty_attrs_v()) by {
            assert(attributes@.raw =~= Map::<Seq<u8>, Option<Seq<u8>>>::empty());
        }
        loop
            invariant
                s == self.input(),
                s == old(self).input(),
                i0 == old(self).stream.idx,
                n == s.len(),
                self.stream.idx <= s.len(),
                sp_attrs(s, i0, empty_attrs_v()) == sp_attrs(s, self.stream.idx as int, attributes@),
                self.stream.data == old(self).stream.data,
                self.tags == old(self).tags,
                self.stack == old(self).stack,
                self.ast == old(self).ast,
                self.ids == old(self).ids,
                self.classes == old(self).classes,
                self.version == old(self).version,
                self.options == old(self).options,
            decreases s.len() - self.stream.idx,
        {
            let ghost before = self.stream.idx as int;
            proof {
                lemma_run_end(s, before, Run::Either(SPACE, LF));
            }
            self.skip_whitespaces();
            let cur = match self.stream.current_cpy() {
                Some(c) => c,
                None => {
                    return None;
                },
            };
            if is_closing(cur) {
                return Some(attributes);
            }
            let ghost i1 = self.stream.idx as int;
            let ghost a0 = attributes@;
            proof {
                lemma_attr_at(s, i1);
            }
            match self.parse_attribute() {
                Some(kv) => {
                    let key = kv.0;
                    let value = kv.1;
                    let has_value = value.is_some();
                    let kind = attr_key_kind(key);
                    if kind == 1 {
                        attributes.id = value;
                    } else if kind == 2 {
                        attributes.class = value;
                    } else {
                        attributes.raw.insert(key, value);
                        proof {
                            assert(attributes@.raw =~= a0.raw.insert(key@, opt_bytes(value)));
                        }
                    }
                    let cur2 = match self.stream.current_cpy() {
                        Some(c) => c,
                        None => {
                            return None;
                        },
                    };
                    if has_value && !is_closing(cur2) {
                        self.stream.advance();
                    }
                },
                None => {
                    self.stream.advance();
                },
            }
        }
    }
}

} // verus!

verus! {

impl<'a> Parser<'a> {
    /// Records node `handle` under each word of the class list `class_bytes`.
    fn record_classes(&mut self, class_bytes: &'a [u8], handle: NodeHandle)
        ensures
            final(self)@.classes == sp_class_fold(old(self)@.classes, class_bytes@, 0, handle.0),
            final(self).stream == old(self).stream,
            final(self).tags == old(self).tags,
            final(self).stack == old(self).stack,
            final(self).ast == old(self).ast,
            final(self).ids == old(self).ids,
            final(self).version == old(self).version,
            final(self).options == old(self).options,
    {
        let ghost c = class_bytes@;
        let mut idx: usize = 0;
        loop
            invariant
                idx <= c.len(),
                c == class_bytes@,
                sp_class_fold(old(self)@.classes, c, 0, handle.0) == sp_class_fold(
                    self@.classes,
                    c,
                    idx as int,
                    handle.0,
                ),
                self.stream == old(self).stream,
                self.tags == old(self).tags,
                self.stack == old(self).stack,
                self.ast == old(self).ast,
                self.ids == old(self).ids,
                self.version == old(self).version,
                self.options == old(self).options,
            decreases c.len() - idx,
        {
            proof {
                lemma_next_token(c, idx as int);
            }
            match next_ascii_token(class_bytes, idx) {
                None => {
                    return;
                },
                Some(t) => {
                    let start = t.0;
                    let len = t.1;
                    let next = t.2;
                    let key = slice_subrange(class_bytes, start, start + len);
                    let ghost cl0 = self@.classes;
                    match self.classes.get_mut(key) {
                        Some(hs) => {
                            let ghost v0 = *hs;
                            hs.push(handle);
                            proof {
                                assert(handles(hs@) =~= handles(v0@).push(handle.0));
                                assert(cl0.contains_key(key@));
                                assert(self@.classes =~= cl0.insert(key@, cl0[key@].push(handle.0)));
                            }
                        },
                        None => {
                            let mut hs: Vec<NodeHandle> = Vec::new();
                            hs.push(handle);
                            self.classes.insert(key, hs);
                            proof {
                                assert(!cl0.contains_key(key@));
                                assert(handles(hs@) =~= seq![handle.0]);
                                assert(self@.classes =~= cl0.insert(key@, seq![handle.0]));
                            }
                        },
                    }
                    idx = next;
                },
            }
        }
    }

    /// Reads a closing tag, the cursor on its `/`, as [`sp_read_end`] describes it.
    fn read_end(&mut self)
        requires
            old(self).wf(),
            old(self).stream.idx < old(self).input().len(),
        ensures
            final(self)@ == sp_read_end(
                old(self).input(),
                old(self).options.tracks_classes(),
                old(self).options.tracks_ids(),
                old(self)@,
            ),
            final(self).stream.data == old(self).stream.data,
            final(self).options == old(self).options,
    {
        let ghost p = self@;
        let ghost s = self.input();
        proof {
            lemma_run_end(s, p.idx + 1, Run::Until(GT));
        }
        self.stream.advance();
        let closing_tag_name = self.read_to(GT);
        if byte_at_eq(self.stream.data(), self.stream.idx, GT) {
            self.stream.advance();
        }
        if self.stack.len() == 0 {
            return;
        }
        let last = self.stack[self.stack.len() - 1];
        let h = last.0 as usize;
        proof {
            let k = p.stack.len() - 1;
            assert(p.stack[k] == last.0);
            assert(0 <= h < p.nodes.len());
            assert(p.nodes[h as int] is Tag);
            assert(p.nodes[h as int] == self.tags@[h as int]@);
        }
        let matches = match &self.tags[h] {
            Node::Tag(t) => bytes_eq(t.name, closing_tag_name),
            _ => false,
        };
        if !matches {
            return;
        }
        let handle = match self.stack.pop() {
            Some(x) => x,
            None => last,
        };
        proof {
            assert(handles(self.stack@) =~= p.stack.drop_last());
        }
        let (raw_start, class, id) = match &self.tags[h] {
            Node::Tag(t) => (t.raw_start, t.attributes.class, t.attributes.id),
            _ => (0, None, None),
        };
        let ghost t = p.nodes[h as int]->Tag_0;
        let new_raw = self.stream.slice(raw_start, self.stream.idx);
        let node = &mut self.tags[h];
        match node {
            Node::Tag(tag) => {
                tag.raw = new_raw;
            },
            _ => {},
        }
        proof {
            let t2 = TagV { raw: s.subrange(t.raw_start, self.stream.idx as int), ..t };
            assert(self.tags@[h as int]@ == NodeV::Tag(t2));
            assert(self@.nodes =~= p.nodes.update(h as int, NodeV::Tag(t2)));
        }
        let track_classes = self.options.is_tracking_classes();
        let track_ids = self.options.is_tracking_ids();
        if track_classes {
            match class {
                Some(class_bytes) => {
                    self.record_classes(class_bytes, handle);
                },
                None => {},
            }
        }
        if track_ids {
            match id {
                Some(id_bytes) => {
                    let ghost ids0 = self@.ids;
                    self.ids.insert(id_bytes, handle);
                    assert(self@.ids =~= ids0.insert(id_bytes@, handle.0));
                },
                None => {},
            }
        }
    }
}

} // verus!

verus! {

impl<'a> Parser<'a> {
    /// Reads a declaration, the cursor on its `!`, as [`sp_markdown`] describes it.
    fn read_markdown(&mut self) -> (r: Result<Option<()>, ParseError>)
        requires
            old(self).wf(),
            1 <= old(self).stream.idx < old(self).input().len(),
        ensures
            match sp_markdown(old(self).input(), old(self)@) {
                Ok(res) => r == Ok::<Option<()>, ParseError>(
                    if res.0 {
                        Some(())
                    } else {
                        None
                    },
                ) && final(self)@ == res.1,
                Err(e) => r == Err::<Option<()>, ParseError>(e),
            },
            final(self).stream.data == old(self).stream.data,
            final(self).options == old(self).options,
    {
        let ghost p = self@;
        let ghost s = self.input();
        let start = self.stream.idx - 1;
        self.stream.advance();
        let two = self.stream.slice_len(self.stream.idx, 2);
        let is_comment = bytes_eq(two, &[DASH, DASH]);
        if is_comment {
            proof {
                lemma_close_search_bounds(s, p.idx + 1);
            }
            let comment = self.skip_comment_with_start(start);
            proof {
                if p.stack.len() > 0 {
                    let k = p.stack.len() - 1;
                    assert(p.stack[k] == p.stack.last());
                }
            }
            let h = self.register_tag(Node::Comment(comment));
            let ghost q = self@;
            proof {
                assert(q.nodes =~= p.nodes.push(NodeV::Comment(comment@)));
                assert(q.stack == p.stack);
                assert(self.stack@.len() > 0 ==> self.stack@.last().0 == p.stack.last());
            }
            self.add_to_parent(h);
            proof {
                let e = close_search(s, p.idx + 1);
                let n = match e {
                    Some(e) => NodeV::Comment(s.subrange(p.idx - 1, e)),
                    None => NodeV::Comment(seq![]),
                };
                let i = match e {
                    Some(e) => e,
                    None => p.idx + 1,
                };
                assert(comment@ =~= match n {
                    NodeV::Comment(b) => b,
                    _ => seq![],
                });
                assert(q == ParserV { nodes: p.nodes.push(n), ..with_idx(p, i) });
            }
        } else {
            let tag = match self.read_ident() {
                Some(t) => t,
                None => {
                    return Err(ParseError::UnsupportedAssemblySyntax);
                },
            };
            proof {
                lemma_run_end(s, p.idx + 1, Run::Ident);
                lemma_run_end(s, self.stream.idx as int, Run::Either(SPACE, LF));
            }
            self.skip_whitespaces();
            if crate::simd::matches_case_insensitive(tag, [100u8, 111, 99, 116, 121, 112, 101]) {
                proof {
                    lemma_run_end(s, self.stream.idx as int, Run::Ident);
                }
                let doctype = match self.read_ident() {
                    Some(d) => d,
                    None => {
                        return Ok(None);
                    },
                };
                let html5 = crate::simd::matches_case_insensitive(doctype, [104u8, 116, 109, 108]);
                if html5 {
                    self.version = Some(HTMLVersion::HTML5);
                }
                proof {
                    lemma_run_end(s, self.stream.idx as int, Run::Either(SPACE, LF));
                }
                self.skip_whitespaces();
                self.stream.advance();
            } else {
                return Err(ParseError::UnsupportedAssemblySyntax);
            }
        }
        Ok(Some(()))
    }
}

} // verus!

verus! {

/// A parse that succeeds ends past the input in a well-formed state.
pub proof fn lemma_sp_single_end(s: Seq<u8>, tc: bool, ti: bool, p: ParserV)
    requires
        pwf(s, p),
    ensures
        sp_single(s, tc, ti, p) matches Ok(p2) ==> pwf(s, p2) && p2.idx >= s.len(),
    decreases s.len() + 1 - p.idx,
{
    let ev = html_event(s, p.idx);
    if ev.0 == 1 {
        lemma_run_end(s, p.idx, Run::Until(crate::scan::LT));
        lemma_register_add(s, p, NodeV::Raw(s.subrange(ev.1, ev.1 + ev.2)), ev.1 + ev.2);
        lemma_sp_single_end(
            s,
            tc,
            ti,
            sp_register_add(with_idx(p, ev.1 + ev.2), NodeV::Raw(s.subrange(ev.1, ev.1 + ev.2))),
        );
    } else if ev.0 == 2 {
        lemma_sp_tag(s, tc, ti, p);
        if let Ok(p2) = sp_tag(s, tc, ti, p) {
            lemma_sp_single_end(s, tc, ti, p2);
        }
    }
}

/// An attribute named `key` with value `value` (`None` for no `=`) is found by
/// [`attr_at`] at some position in `[lo, hi)`.
pub open spec fn attr_in(s: Seq<u8>, lo: int, hi: int, key: Seq<u8>, value: Option<Seq<u8>>) -> bool {
    exists|j: int|
        lo <= j < hi && (#[trigger] attr_at(s, j) matches Some(at) && s.subrange(
            at.name_start as int,
            at.name_start + at.name_len,
        ) == key && value == if at.has_value != 0 {
            Some(s.subrange(at.value_start as int, at.value_start + at.value_len))
        } else {
            None
        })
}

/// An attribute found from `lo2` on is found from any earlier `lo`.
proof fn lemma_attr_in_widen(s: Seq<u8>, lo: int, lo2: int, hi: int)
    requires
        lo <= lo2,
    ensures
        forall|k: Seq<u8>, v: Option<Seq<u8>>| #[trigger] attr_in(s, lo2, hi, k, v) ==> attr_in(s, lo, hi, k, v),
{
    assert forall|k: Seq<u8>, v: Option<Seq<u8>>| #[trigger] attr_in(s, lo2, hi, k, v) implies attr_in(s, lo, hi, k, v) by {
        let j = choose|j: int| lo2 <= j < hi && (#[trigger] attr_at(s, j) matches Some(at) && s.subrange(
            at.name_start as int,
            at.name_start + at.name_len,
        ) == k && v == if at.has_value != 0 {
            Some(s.subrange(at.value_start as int, at.value_start + at.value_len))
        } else {
            None
        });
        assert(lo <= j < hi);
    }
}

/// The attributes read from a tag's attribute list come from that list: the id is the
/// value of an attribute named `id` in it (none for `id` without `=`), the class the value
/// of one named `class`, and
/// every other recorded name is an attribute of the list with that value (else they are
/// what they were before the list).
#[verifier::rlimit(40)]
pub proof fn lemma_attrs_from_source(s: Seq<u8>, i: int, a: AttrsV)
    requires
        0 <= i <= s.len(),
        s.len() <= usize::MAX,
    ensures
        sp_attrs(s, i, a).0 matches Some(r) ==> {
            let e = sp_attrs(s, i, a).1;
            &&& (r.id == a.id || attr_in(s, i, e, seq![105u8, 100], r.id))
            &&& (r.class == a.class || attr_in(s, i, e, seq![99u8, 108, 97, 115, 115], r.class))
            &&& forall|k: Seq<u8>|
                #[trigger] r.raw.contains_key(k) ==> (a.raw.contains_key(k) && r.raw[k] == a.raw[k])
                    || attr_in(s, i, e, k, r.raw[k])
        },
    decreases s.len() - i,
{
    lemma_run_end(s, i, Run::Either(SPACE, LF));
    let i1 = blank_end(s, i);
    lemma_sp_attrs(s, i, a);
    if i1 < s.len() && !(s[i1] == SLASH || s[i1] == GT) {
        match attr_at(s, i1) {
            None => {
                lemma_sp_attrs(s, i1 + 1, a);
                lemma_attrs_from_source(s, i1 + 1, a);
                let e = sp_attrs(s, i, a).1;
                if let Some(r) = sp_attrs(s, i, a).0 {
                    lemma_attr_in_widen(s, i, i1 + 1, e);
                }
            },
            Some(at) => {
                lemma_attr_at(s, i1);
                let key = s.subrange(at.name_start as int, at.name_start + at.name_len);
                let value = if at.has_value != 0 {
                    Some(s.subrange(at.value_start as int, at.value_start + at.value_len))
                } else {
                    None
                };
                let kind = attr_key_kind_spec(key);
                let a2 = if kind == 1 {
                    AttrsV { id: value, ..a }
                } else if kind == 2 {
                    AttrsV { class: value, ..a }
                } else {
                    AttrsV { raw: a.raw.insert(key, value), ..a }
                };
                let n = at.next_idx as int;
                if n < s.len() {
                    let i2 = if at.has_value != 0 && !(s[n] == SLASH || s[n] == GT) {
                        n + 1
                    } else {
                        n
                    };
                    lemma_sp_attrs(s, i2, a2);
                    lemma_attrs_from_source(s, i2, a2);
                    let e = sp_attrs(s, i, a).1;
                    assert(e == sp_attrs(s, i2, a2).1);
                    assert(attr_in(s, i, e, key, value)) by {
                        assert(i <= i1 < e);
                        assert(attr_at(s, i1) == Some(at));
                    }
                    lemma_attr_in_widen(s, i, i2, e);
                }
            },
        }
    }
}

/// A closing tag `</name>` closes the innermost open tag exactly when `name` (the bytes up
/// to the next `>`) equals that tag's name: the tag leaves the stack, keeps its name,
/// attributes and children, and its source text runs to just past the `>`; no other node
/// changes. A closing tag with another name, or with no tag open, changes nothing but the
/// position: the nodes, the stack, the top-level nodes and the tables stay as they were.
pub proof fn lemma_closing_tag(s: Seq<u8>, tc: bool, ti: bool, p: ParserV)
    requires
        pwf(s, p),
        p.idx < s.len(),
        blank_end(s, p.idx + 1) < s.len(),
        s[blank_end(s, p.idx + 1)] == SLASH,
    ensures
        ({
            let i = blank_end(s, p.idx + 1);
            let e = run_end(s, i + 1, Run::Until(GT));
            let i1 = if e < s.len() && s[e] == GT {
                e + 1
            } else {
                e
            };
            let h = p.stack.last() as int;
            let closes = p.stack.len() > 0 && (p.nodes[h] matches NodeV::Tag(t) && t.name
                == s.subrange(i + 1, e));
            sp_tag(s, tc, ti, p) matches Ok(p2) && p2.idx == i1 && p2.ast == p.ast && if closes {
                &&& p2.stack == p.stack.drop_last()
                &&& p2.nodes.len() == p.nodes.len()
                &&& (p2.nodes[h] matches NodeV::Tag(t2) && (p.nodes[h] matches NodeV::Tag(t) && t2.name
                    == t.name && t2.attrs == t.attrs && t2.children == t.children && t2.raw
                    == s.subrange(t.raw_start, i1)))
                &&& forall|k: int| 0 <= k < p.nodes.len() && k != h ==> #[trigger] p2.nodes[k] == p.nodes[k]
            } else {
                &&& p2.nodes == p.nodes
                &&& p2.stack == p.stack
                &&& p2.ids == p.ids
                &&& p2.classes == p.classes
            }
        }),
{
    if p.stack.len() > 0 {
        assert(p.stack[p.stack.len() - 1] == p.stack.last());
    }
}

/// A parse fails only at a `<!` declaration: without a `!` the rest of a parse succeeds.
proof fn lemma_sp_single_ok(s: Seq<u8>, tc: bool, ti: bool, p: ParserV)
    requires
        pwf(s, p),
        forall|k: int| 0 <= k < s.len() ==> #[trigger] s[k] != BANG,
    ensures
        sp_single(s, tc, ti, p) is Ok,
    decreases s.len() + 1 - p.idx,
{
    let ev = html_event(s, p.idx);
    if ev.0 == 1 {
        lemma_run_end(s, p.idx, Run::Until(crate::scan::LT));
        lemma_register_add(s, p, NodeV::Raw(s.subrange(ev.1, ev.1 + ev.2)), ev.1 + ev.2);
        lemma_sp_single_ok(
            s,
            tc,
            ti,
            sp_register_add(with_idx(p, ev.1 + ev.2), NodeV::Raw(s.subrange(ev.1, ev.1 + ev.2))),
        );
    } else if ev.0 == 2 {
        lemma_run_end(s, p.idx + 1, Run::Either(SPACE, LF));
        lemma_sp_tag(s, tc, ti, p);
        assert(sp_tag(s, tc, ti, p) is Ok);
        if let Ok(p2) = sp_tag(s, tc, ti, p) {
            lemma_sp_single_ok(s, tc, ti, p2);
        }
    }
}

/// The parse of an input that fits a `u32` (and, on a 32-bit platform, does not fill the
/// address space) fails only at a `<!` declaration that is neither a comment nor a
/// doctype: an input without `!` is always parsed.
pub proof fn lemma_parse_ok(s: Seq<u8>, track_classes: bool, track_ids: bool)
    requires
        s.len() <= u32::MAX,
        s.len() < usize::MAX,
        forall|k: int| 0 <= k < s.len() ==> #[trigger] s[k] != BANG,
    ensures
        sp_parse(s, track_classes, track_ids) is Ok,
{
    lemma_sp_single_ok(s, track_classes, track_ids, initial_state());
}

impl<'a> Parser<'a> {
    /// Reads a tag, the cursor on its `<`, as [`sp_tag`] describes it.
    fn parse_tag(&mut self) -> (r: Result<Option<()>, ParseError>)
        requires
            old(self).wf(),
            old(self).stream.idx < old(self).input().len(),
        ensures
            match sp_tag(
                old(self).input(),
                old(self).options.tracks_classes(),
                old(self).options.tracks_ids(),
                old(self)@,
            ) {
                Ok(p2) => r matches Ok(o) && final(self)@ == p2 && (o is Some <==> sp_tag_complete(
                    old(self).input(),
                    old(self).stream.idx as int,
                )),
                Err(e) => r == Err::<Option<()>, ParseError>(e),
            },
            final(self).stream.data == old(self).stream.data,
            final(self).options == old(self).options,
    {
        let ghost p = self@;
        let ghost s = self.input();
        let start = self.stream.idx;
        self.stream.advance();
        proof {
            lemma_run_end(s, p.idx + 1, Run::Either(SPACE, LF));
        }
        self.skip_whitespaces();
        let cur = match self.stream.current_cpy() {
            Some(c) => c,
            None => {
                return Ok(None);
            },
        };
        if cur == SLASH {
            self.read_end();
        } else if cur == BANG {
            match self.read_markdown() {
                Err(e) => {
                    return Err(e);
                },
                Ok(_) => {},
            }
        } else {
            let i = self.stream.idx;
            proof {
                lemma_run_end(s, i as int, Run::Ident);
            }
            let name = match self.read_ident() {
                Some(n) => n,
                None => {
                    return Ok(None);
                },
            };
            proof {
                lemma_run_end(s, self.stream.idx as int, Run::Either(SPACE, LF));
            }
            self.skip_whitespaces();
            proof {
                lemma_sp_attrs(s, self.stream.idx as int, empty_attrs_v());
            }
            let attr = match self.parse_attributes() {
                Some(a) => a,
                None => {
                    return Ok(None);
                },
            };
            let is_self_closing = byte_at_eq(self.stream.data(), self.stream.idx, SLASH);
            if is_self_closing {
                self.stream.advance();
            }
            if !byte_at_eq(self.stream.data(), self.stream.idx, GT) {
                return Ok(None);
            }
            self.stream.advance();
            let raw = self.stream.slice(start, self.stream.idx);
            let ghost k3 = self.stream.idx as int;
            let tag = HTMLTag {
                name,
                attributes: attr,
                children: Vec::new(),
                raw,
                raw_start: start,
            };
            proof {
                assert(handles(tag.children@) =~= Seq::<u32>::empty());
                if p.stack.len() > 0 {
                    let k = p.stack.len() - 1;
                    assert(p.stack[k] == p.stack.last());
                }
                lemma_register_add(
                    s,
                    p,
                    NodeV::Tag(
                        TagV {
                            name: name@,
                            attrs: attr@,
                            children: seq![],
                            raw: s.subrange(start as int, k3),
                            raw_start: start as int,
                        },
                    ),
                    k3,
                );
            }
            let this = self.register_tag(Node::Tag(tag));
            let ghost q = self@;
            proof {
                assert(q.nodes =~= p.nodes.push(Node::Tag(tag)@));
            }
            self.add_to_parent(this);
            if !is_self_closing && !is_void_tag(name) {
                let ghost q2 = self@;
                self.stack.push(this);
                proof {
                    assert(self@.stack =~= q2.stack.push(this.0));
                }
            }
        }
        Ok(Some(()))
    }

    /// Reads text runs and tags up to the end of input, as [`sp_single`] describes it.
    fn parse_single(&mut self) -> (r: Result<Option<()>, ParseError>)
        requires
            old(self).wf(),
        ensures
            match sp_single(
                old(self).input(),
                old(self).options.tracks_classes(),
                old(self).options.tracks_ids(),
                old(self)@,
            ) {
                Ok(p2) => r == Ok::<Option<()>, ParseError>(None) && final(self)@ == p2,
                Err(e) => r == Err::<Option<()>, ParseError>(e),
            },
            final(self).stream.data == old(self).stream.data,
            final(self).options == old(self).options,
    {
        let ghost s = self.input();
        let ghost tc = self.options.tracks_classes();
        let ghost ti = self.options.tracks_ids();
        let ghost p0 = self@;
        loop
            invariant
                s == self.input(),
                s == old(self).input(),
                tc == self.options.tracks_classes(),
                ti == self.options.tracks_ids(),
                p0 == old(self)@,
                self.stream.data == old(self).stream.data,
                self.options == old(self).options,
                self.wf(),
                sp_single(s, tc, ti, p0) == sp_single(s, tc, ti, self@),
            decreases s.len() + 1 - self.stream.idx,
        {
            let ghost p = self@;
            let ev = scan_html_event(self.stream.data(), self.stream.idx);
            let kind = ev.0;
            if kind == 0 {
                return Ok(None);
            }
            if kind == 1 {
                let start = ev.1;
                let len = ev.2;
                proof {
                    lemma_run_end(s, p.idx, Run::Until(crate::scan::LT));
                    if p.stack.len() > 0 {
                        let k = p.stack.len() - 1;
                        assert(p.stack[k] == p.stack.last());
                    }
                    lemma_register_add(s, p, NodeV::Raw(s.subrange(start as int, start + len)), start + len);
                }
                self.stream.idx = start + len;
                let raw = self.stream.slice(start, start + len);
                let handle = self.register_tag(Node::Raw(raw));
                let ghost q = self@;
                proof {
                    assert(q.nodes =~= p.nodes.push(NodeV::Raw(raw@)));
                }
                self.add_to_parent(handle);
            } else {
                proof {
                    lemma_sp_tag(s, tc, ti, p);
                }
                match self.parse_tag() {
                    Err(e) => {
                        return Err(e);
                    },
                    Ok(_) => {},
                }
            }
        }
    }

    /// Parses the whole input, as [`sp_parse`] describes it.
    pub fn parse(&mut self) -> (r: Result<(), ParseError>)
        requires
            old(self)@ == initial_state(),
        ensures
            match sp_parse(
                old(self).input(),
                old(self).options.tracks_classes(),
                old(self).options.tracks_ids(),
            ) {
                Ok(p2) => r is Ok && final(self)@ == p2,
                Err(e) => r == Err::<(), ParseError>(e),
            },
            final(self).stream.data == old(self).stream.data,
            final(self).options == old(self).options,
    {
        let n = self.stream.len();
        if !len_fits_u32(n) || n == usize::MAX {
            return Err(ParseError::InvalidLength);
        }
        let ghost s = self.input();
        let ghost tc = self.options.tracks_classes();
        let ghost ti = self.options.tracks_ids();
        while !self.stream.is_eof()
            invariant
                s == self.input(),
                s == old(self).input(),
                s.len() <= u32::MAX,
                s.len() < usize::MAX,
                tc == old(self).options.tracks_classes(),
                ti == old(self).options.tracks_ids(),
                self.stream.data == old(self).stream.data,
                self.options == old(self).options,
                self@ == initial_state() || (sp_parse(s, tc, ti) == Ok::<ParserV, ParseError>(
                    self@,
                ) && self.stream.idx >= s.len()),
                self.stream.idx <= s.len() + 1,
            decreases s.len() + 1 - self.stream.idx,
        {
            proof {
                lemma_sp_single_end(s, tc, ti, initial_state());
            }
            match self.parse_single() {
                Err(e) => {
                    return Err(e);
                },
                Ok(_) => {},
            }
        }
        Ok(())
    }

    /// The node with index `id`.
    pub fn resolve_node_id(&self, id: u32) -> (r: Option<&Node<'a>>)
        ensures
            (id as int) < self.tags@.len() ==> r == Some(&self.tags@[id as int]),
            (id as int) >= self.tags@.len() ==> r is None,
    {
        if (id as usize) < self.tags.len() {
            Some(&self.tags[id as usize])
        } else {
            None
        }
    }

    /// The node with index `id`, to be changed in place.
    pub fn resolve_node_id_mut(&mut self, id: u32) -> (r: Option<&mut Node<'a>>)
        ensures
            (id as int) < old(self).tags@.len() ==> (r matches Some(n) && *n == old(self).tags@[id as int]
                && final(self).tags@ == old(self).tags@.update(id as int, *final(n))),
            (id as int) >= old(self).tags@.len() ==> r is None && *final(self) == *old(self),
    {
        if (id as usize) < self.tags.len() {
            Some(&mut self.tags[id as usize])
        } else {
            None
        }
    }
}

impl NodeHandle {
    /// The node this handle refers to in `parser`.
    pub fn get<'a, 'b>(&self, parser: &'b Parser<'a>) -> (r: Option<&'b Node<'a>>)
        ensures
            (self.0 as int) < parser.tags@.len() ==> r == Some(&parser.tags@[self.0 as int]),
            (self.0 as int) >= parser.tags@.len() ==> r is None,
    {
        parser.resolve_node_id(self.0)
    }
}

} // verus!
