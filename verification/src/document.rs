//! A flat, single-pass HTML document scanner.
//!
//! It reads a document once and writes fixed-size records: one per node (text, tag or
//! comment), one per attribute, and the indices of the top-level nodes, into buffers of
//! a capacity chosen by the caller. Running out of a buffer stops the scan with a status.
use vstd::prelude::*;
use vstd::slice::slice_subrange;
use crate::scan::{
    attr_key_kind, attr_key_kind_spec, bytes_eq, ci_eq, comment_close, is_void_tag, matches_at,
    matches_case_insensitive, is_ident_spec, is_void_tag_name, lemma_run_end, html_void_elements,
    lemma_void_names,
    occurs_at, run_end, scan_run, in_run, Run, BANG, DASH, DQUOTE, EQ, GT, LF, LT, SLASH, SPACE, SQUOTE,
};

verus! {

/// Where an attribute lies in the input: its name, its value, and where scanning resumes.
#[derive(Clone, Copy, PartialEq, Eq, Structural, Debug)]
pub struct AsmAttr {
    pub name_start: usize,
    pub name_len: usize,
    pub value_start: usize,
    pub value_len: usize,
    pub next_idx: usize,
    /// 1 when the attribute is followed by `=`, 0 otherwise.
    pub has_value: u32,
}

/// The attribute at `idx`: an identifier name, optionally followed by blanks, `=`,
/// blanks and a value; a value that opens with a quote runs to the matching quote (which
/// is not consumed), any other value runs to a space, line feed or `>`.
pub open spec fn attr_at(s: Seq<u8>, idx: int) -> Option<AsmAttr> {
    if idx < 0 || idx >= s.len() {
        None
    } else {
        let ne = run_end(s, idx, Run::Ident);
        if ne == idx {
            None
        } else {
            let j = run_end(s, ne, Run::Blank);
            let name_start = idx as usize;
            let name_len = (ne - idx) as usize;
            if !(j < s.len() && s[j] == EQ) {
                Some(
                    AsmAttr {
                        name_start,
                        name_len,
                        value_start: j as usize,
                        value_len: 0,
                        next_idx: j as usize,
                        has_value: 0,
                    },
                )
            } else {
                let k = run_end(s, j + 1, Run::Blank);
                if k >= s.len() {
                    Some(
                        AsmAttr {
                            name_start,
                            name_len,
                            value_start: k as usize,
                            value_len: 0,
                            next_idx: k as usize,
                            has_value: 1,
                        },
                    )
                } else if s[k] == DQUOTE || s[k] == SQUOTE {
                    let e = run_end(s, k + 1, Run::Until(s[k]));
                    Some(
                        AsmAttr {
                            name_start,
                            name_len,
                            value_start: (k + 1) as usize,
                            value_len: (e - (k + 1)) as usize,
                            next_idx: e as usize,
                            has_value: 1,
                        },
                    )
                } else {
                    let e = run_end(s, k, Run::Unquoted);
                    Some(
                        AsmAttr {
                            name_start,
                            name_len,
                            value_start: k as usize,
                            value_len: (e - k) as usize,
                            next_idx: e as usize,
                            has_value: 1,
                        },
                    )
                }
            }
        }
    }
}

/// An attribute found at `idx` lies within the input and ends after `idx`.
pub proof fn lemma_attr_at(s: Seq<u8>, idx: int)
    requires
        0 <= idx,
        s.len() <= usize::MAX,
    ensures
        attr_at(s, idx) matches Some(a) ==> {
            &&& a.name_start == idx
            &&& 0 < a.name_len
            &&& idx < a.next_idx <= s.len()
            &&& a.name_start + a.name_len <= a.next_idx
            &&& a.value_start + a.value_len <= s.len()
            &&& a.value_start + a.value_len == a.next_idx
            &&& forall|k: int|
                idx <= k < idx + a.name_len ==> is_ident_spec(#[trigger] s[k])
        },
{
    if 0 <= idx < s.len() {
        lemma_run_end(s, idx, Run::Ident);
        let ne = run_end(s, idx, Run::Ident);
        if ne != idx {
            lemma_run_end(s, ne, Run::Blank);
            let j = run_end(s, ne, Run::Blank);
            if j < s.len() && s[j] == EQ {
                lemma_run_end(s, j + 1, Run::Blank);
                let k = run_end(s, j + 1, Run::Blank);
                if k < s.len() {
                    if s[k] == DQUOTE || s[k] == SQUOTE {
                        lemma_run_end(s, k + 1, Run::Until(s[k]));
                    } else {
                        lemma_run_end(s, k, Run::Unquoted);
                    }
                }
            }
        }
    }
}

/// Reads the attribute at `idx`, as [`attr_at`] describes it.
pub fn parse_attr_at(input: &[u8], idx: usize) -> (res: Option<AsmAttr>)
    ensures
        res == attr_at(input@, idx as int),
{
    if idx >= input.len() {
        return None;
    }
    let name_start = idx;
    let ne = scan_run(input, idx, Run::Ident);
    if ne == name_start {
        return None;
    }
    let name_len = ne - name_start;
    let j = scan_run(input, ne, Run::Blank);
    if !(j < input.len() && input[j] == EQ) {
        return Some(
            AsmAttr {
                name_start,
                name_len,
                value_start: j,
                value_len: 0,
                next_idx: j,
                has_value: 0,
            },
        );
    }
    let k = scan_run(input, j + 1, Run::Blank);
    if k >= input.len() {
        return Some(
            AsmAttr {
                name_start,
                name_len,
                value_start: k,
                value_len: 0,
                next_idx: k,
                has_value: 1,
            },
        );
    }
    let q = input[k];
    if q == DQUOTE || q == SQUOTE {
        let e = scan_run(input, k + 1, Run::Until(q));
        Some(
            AsmAttr {
                name_start,
                name_len,
                value_start: k + 1,
                value_len: e - (k + 1),
                next_idx: e,
                has_value: 1,
            },
        )
    } else {
        let e = scan_run(input, k, Run::Unquoted);
        Some(
            AsmAttr {
                name_start,
                name_len,
                value_start: k,
                value_len: e - k,
                next_idx: e,
                has_value: 1,
            },
        )
    }
}

/// Reads the attribute at `idx` into `out` and returns 1, or returns 0 and leaves `out`
/// as it was where no attribute starts at `idx`.
pub fn rbtl_rust_msvc_parse_attr(input: &[u8], idx: usize, out: &mut AsmAttr) -> (res: u32)
    ensures
        match attr_at(input@, idx as int) {
            Some(a) => res == 1 && *final(out) == a,
            None => res == 0 && *final(out) == *old(out),
        },
{
    match parse_attr_at(input, idx) {
        Some(attr) => {
            *out = attr;
            1
        },
        None => 0,
    }
}

} // verus!

verus! {

/// One record per node of the document.
#[derive(Clone, Copy, PartialEq, Eq, Structural, Debug)]
pub struct AsmNodeRecord {
    /// 1 text, 2 tag, 3 comment.
    pub kind: u32,
    /// The number of children (saturating).
    pub flags: u32,
    /// The index of the enclosing tag, or `u32::MAX` for a top-level node.
    pub parent: u32,
    pub attr_start: u32,
    pub attr_count: u32,
    pub start: u32,
    pub len: u32,
    pub name_start: u32,
    pub name_len: u32,
}

/// One record per attribute of a tag.
#[derive(Clone, Copy, PartialEq, Eq, Structural, Debug)]
pub struct AsmAttrRecord {
    pub name_start: u32,
    pub name_len: u32,
    pub value_start: u32,
    pub value_len: u32,
    pub has_value: u32,
    /// 1 for `id`, 2 for `class`, 0 for any other name.
    pub key_kind: u32,
}

/// The capacities of the output buffers; a missing root buffer records no roots but
/// still counts them.
pub struct DocCaps {
    pub nodes: int,
    pub attrs: int,
    pub roots: int,
    pub record_roots: bool,
    pub stack: int,
}

/// What a scan has produced so far, with its stack of open tags.
pub struct DocState {
    pub nodes: Seq<AsmNodeRecord>,
    pub attrs: Seq<AsmAttrRecord>,
    pub roots: Seq<u32>,
    pub roots_len: int,
    pub stack: Seq<u32>,
    pub version: u32,
}

pub open spec fn empty_doc_state() -> DocState {
    DocState {
        nodes: seq![],
        attrs: seq![],
        roots: seq![],
        roots_len: 0,
        stack: seq![],
        version: 0,
    }
}

/// How a scan step ends: it goes on at a position, or it stops with a status.
pub enum DocStep {
    Next(int, DocState),
    Stop(u32, DocState),
}

pub open spec fn sat_inc(x: u32) -> u32 {
    if x == u32::MAX {
        x
    } else {
        (x + 1) as u32
    }
}

/// A node record before its parent and child count are known.
pub open spec fn node_rec(
    kind: u32,
    start: int,
    len: int,
    name_start: int,
    name_len: int,
    attr_start: int,
    attr_count: int,
) -> AsmNodeRecord {
    AsmNodeRecord {
        kind,
        flags: 0,
        parent: 0,
        attr_start: attr_start as u32,
        attr_count: attr_count as u32,
        start: start as u32,
        len: len as u32,
        name_start: name_start as u32,
        name_len: name_len as u32,
    }
}

/// Appends a node under the innermost open tag (or as a top-level node): status 1 when
/// the node buffer is full, 3 when the root buffer is full (the node is then already
/// written); otherwise the index of the new node.
pub open spec fn emit_spec(c: DocCaps, st: DocState, rec: AsmNodeRecord) -> (
    Result<u32, u32>,
    DocState,
) {
    if st.nodes.len() >= c.nodes {
        (Err(1), st)
    } else {
        let idx = st.nodes.len();
        let parent = if st.stack.len() == 0 {
            u32::MAX
        } else {
            st.stack.last()
        };
        let r = AsmNodeRecord { flags: 0, parent, ..rec };
        let nodes = st.nodes.push(r);
        if parent == u32::MAX {
            if c.record_roots {
                if st.roots_len >= c.roots {
                    (Err(3), DocState { nodes, ..st })
                } else {
                    (
                        Ok(idx as u32),
                        DocState {
                            nodes,
                            roots: st.roots.push(idx as u32),
                            roots_len: st.roots_len + 1,
                            ..st
                        },
                    )
                }
            } else {
                (Ok(idx as u32), DocState { nodes, roots_len: st.roots_len + 1, ..st })
            }
        } else {
            let p = nodes[parent as int];
            let nodes2 = nodes.update(parent as int, AsmNodeRecord { flags: sat_inc(p.flags), ..p });
            (Ok(idx as u32), DocState { nodes: nodes2, ..st })
        }
    }
}

/// Emits a node and goes on at `next`, or stops with the status of a full buffer.
pub open spec fn emit_then(c: DocCaps, st: DocState, rec: AsmNodeRecord, next: int) -> DocStep {
    let (r, st2) = emit_spec(c, st, rec);
    match r {
        Ok(_) => DocStep::Next(next, st2),
        Err(code) => DocStep::Stop(code, st2),
    }
}

/// Text from `idx` up to the next `<`.
pub open spec fn text_step(s: Seq<u8>, c: DocCaps, idx: int, st: DocState) -> DocStep {
    let e = run_end(s, idx, Run::Until(LT));
    emit_then(c, st, node_rec(1, idx, e - idx, 0, 0, 0, 0), e)
}

/// A closing tag `</name>` at `ms`: it closes the innermost open tag when the names
/// agree (recording the tag's full length), and is skipped otherwise.
pub open spec fn close_step(s: Seq<u8>, ms: int, st: DocState) -> DocStep {
    let ns = run_end(s, ms + 2, Run::Blank);
    let e = run_end(s, ns, Run::Until(GT));
    let i = if e < s.len() {
        e + 1
    } else {
        e
    };
    if st.stack.len() == 0 {
        DocStep::Next(i, st)
    } else {
        let h = st.stack.last() as int;
        let open = st.nodes[h];
        if s.subrange(open.name_start as int, open.name_start + open.name_len) == s.subrange(
            ns,
            e,
        ) {
            let nodes = st.nodes.update(h, AsmNodeRecord { len: (i - open.start) as u32, ..open });
            DocStep::Next(i, DocState { nodes, stack: st.stack.drop_last(), ..st })
        } else {
            DocStep::Next(i, st)
        }
    }
}

/// The first position at or after `j` where `-->` starts, or where fewer than three bytes
/// remain.
pub open spec fn comment_scan(s: Seq<u8>, j: int) -> int
    decreases s.len() - j,
{
    if 0 <= j && j + 2 < s.len() && !occurs_at(s, comment_close(), j) {
        comment_scan(s, j + 1)
    } else {
        j
    }
}

/// A comment `<!-- ... -->` at `ms`; an unterminated comment runs to the end of input.
pub open spec fn comment_step(s: Seq<u8>, c: DocCaps, ms: int, st: DocState) -> DocStep {
    let j = comment_scan(s, ms + 4);
    let end = if j + 2 < s.len() {
        j + 3
    } else {
        s.len() as int
    };
    emit_then(c, st, node_rec(3, ms, end - ms, 0, 0, 0, 0), end)
}

/// `doctype`
pub open spec fn doctype_name() -> Seq<u8> {
    seq![100u8, 111, 99, 116, 121, 112, 101]
}

/// `html`
pub open spec fn html_name() -> Seq<u8> {
    seq![104u8, 116, 109, 108]
}

/// A `<!word value ...>` declaration at `ms`: the word must be `doctype` in any case
/// (status 5 otherwise); a value `html` in any case marks the document as HTML 5.
pub open spec fn doctype_step(s: Seq<u8>, ms: int, st: DocState) -> DocStep {
    let ws = run_end(s, ms + 2, Run::Blank);
    let we = run_end(s, ws, Run::Ident);
    if !ci_eq(s.subrange(ws, we), doctype_name()) {
        DocStep::Stop(5, st)
    } else {
        let vs = run_end(s, we, Run::Blank);
        let ve = run_end(s, vs, Run::Ident);
        let version = if ci_eq(s.subrange(vs, ve), html_name()) {
            1u32
        } else {
            st.version
        };
        let e = run_end(s, ve, Run::Until(GT));
        let i = if e < s.len() {
            e + 1
        } else {
            e
        };
        DocStep::Next(i, DocState { version, ..st })
    }
}

/// How the attribute list of an opening tag ends: at a position, with the attributes
/// written and whether a `/` was seen; or with a full attribute buffer.
pub enum AttrLoop {
    Done(int, DocState, bool),
    Full(DocState),
}

/// The record of an attribute found in `s`.
pub open spec fn attr_rec(s: Seq<u8>, a: AsmAttr) -> AsmAttrRecord {
    AsmAttrRecord {
        name_start: a.name_start as u32,
        name_len: a.name_len as u32,
        value_start: a.value_start as u32,
        value_len: a.value_len as u32,
        has_value: a.has_value,
        key_kind: attr_key_kind_spec(
            s.subrange(a.name_start as int, a.name_start + a.name_len),
        ),
    }
}

/// Where scanning resumes after an attribute: one byte past a value's end, unless that
/// byte is `/` or `>` or the input has ended.
pub open spec fn after_attr(s: Seq<u8>, a: AsmAttr) -> int {
    let n = a.next_idx as int;
    if a.has_value != 0 && n < s.len() && s[n] != SLASH && s[n] != GT {
        n + 1
    } else {
        n
    }
}

/// The attribute list of an opening tag from `i`: blanks are skipped, `/` marks the tag
/// self-closing, `>` ends it, a byte that starts no attribute is skipped.
pub open spec fn attr_loop(s: Seq<u8>, c: DocCaps, i: int, st: DocState, sc: bool) -> AttrLoop
    decreases s.len() - i,
{
    if i < 0 || i > s.len() || s.len() > usize::MAX {
        AttrLoop::Done(i, st, sc)
    } else {
        let i1 = run_end(s, i, Run::Blank);
        proof {
            lemma_run_end(s, i, Run::Blank);
        }
        if i1 >= s.len() {
            AttrLoop::Done(i1, st, sc)
        } else if s[i1] == SLASH {
            attr_loop(s, c, i1 + 1, st, true)
        } else if s[i1] == GT {
            AttrLoop::Done(i1 + 1, st, sc)
        } else {
            match attr_at(s, i1) {
                None => attr_loop(s, c, i1 + 1, st, sc),
                Some(a) => {
                    if st.attrs.len() >= c.attrs {
                        AttrLoop::Full(st)
                    } else {
                        proof {
                            lemma_attr_at(s, i1);
                        }
                        let st2 = DocState { attrs: st.attrs.push(attr_rec(s, a)), ..st };
                        attr_loop(s, c, after_attr(s, a), st2, sc)
                    }
                },
            }
        }
    }
}

/// An opening tag at `ms`: its name (the scan stops, with status 0, where there is none),
/// its attributes, then the node; a tag that neither ends with `/` nor is void is opened
/// (status 4 when the stack is full).
pub open spec fn open_step(s: Seq<u8>, c: DocCaps, ms: int, st: DocState) -> DocStep {
    let ns = run_end(s, ms + 1, Run::Blank);
    let ne = run_end(s, ns, Run::Ident);
    if ne == ns {
        DocStep::Stop(0, st)
    } else {
        let attr_start = st.attrs.len() as int;
        match attr_loop(s, c, ne, st, false) {
            AttrLoop::Full(st2) => DocStep::Stop(2, st2),
            AttrLoop::Done(i, st2, sc) => {
                let rec = node_rec(
                    2,
                    ms,
                    i - ms,
                    ns,
                    ne - ns,
                    attr_start,
                    st2.attrs.len() - attr_start,
                );
                let (r, st3) = emit_spec(c, st2, rec);
                match r {
                    Err(code) => DocStep::Stop(code, st3),
                    Ok(node_idx) => {
                        if !sc && !is_void_tag_name(s.subrange(ns, ne)) {
                            if st3.stack.len() >= c.stack {
                                DocStep::Stop(4, st3)
                            } else {
                                DocStep::Next(i, DocState { stack: st3.stack.push(node_idx), ..st3 })
                            }
                        } else {
                            DocStep::Next(i, st3)
                        }
                    },
                }
            },
        }
    }
}

/// One step of the scan at `idx` (which is inside the input).
pub open spec fn doc_step(s: Seq<u8>, c: DocCaps, idx: int, st: DocState) -> DocStep {
    if s[idx] != LT {
        text_step(s, c, idx, st)
    } else if idx + 1 >= s.len() {
        emit_then(c, st, node_rec(1, idx, 1, 0, 0, 0, 0), idx + 1)
    } else if s[idx + 1] == SLASH {
        close_step(s, idx, st)
    } else if s[idx + 1] == BANG {
        if idx + 3 < s.len() && s[idx + 2] == DASH && s[idx + 3] == DASH {
            comment_step(s, c, idx, st)
        } else {
            doctype_step(s, idx, st)
        }
    } else {
        open_step(s, c, idx, st)
    }
}

} // verus!

verus! {

/// The scan from `idx` to its end: the status and what was produced.
pub open spec fn doc_run(s: Seq<u8>, c: DocCaps, idx: int, st: DocState) -> (u32, DocState)
    decreases s.len() - idx,
{
    if !(doc_wf(s, idx, st) && idx < s.len()) {
        (0, st)
    } else {
        match doc_step(s, c, idx, st) {
            DocStep::Next(i, st2) => {
                proof {
                    lemma_doc_step(s, c, idx, st);
                }
                doc_run(s, c, i, st2)
            },
            DocStep::Stop(code, st2) => (code, st2),
        }
    }
}

/// The scan of a whole document.
pub open spec fn document_scan(s: Seq<u8>, c: DocCaps) -> (u32, DocState) {
    doc_run(s, c, 0, empty_doc_state())
}

/// The open tags all name a node before `idx` whose name lies in the input.
pub open spec fn stack_ok(s: Seq<u8>, idx: int, nodes: Seq<AsmNodeRecord>, stack: Seq<u32>) -> bool {
    forall|k: int|
        0 <= k < stack.len() ==> {
            let h = #[trigger] stack[k] as int;
            &&& 0 <= h < nodes.len()
            &&& nodes[h].name_start + nodes[h].name_len <= s.len()
            &&& nodes[h].start <= idx
        }
}

/// `n2` keeps the node positions of `n1` and may add nodes after them.
pub open spec fn spans_kept(n1: Seq<AsmNodeRecord>, n2: Seq<AsmNodeRecord>) -> bool {
    &&& n1.len() <= n2.len()
    &&& forall|k: int|
        0 <= k < n1.len() ==> {
            &&& (#[trigger] n2[k]).name_start == n1[k].name_start
            &&& n2[k].name_len == n1[k].name_len
            &&& n2[k].start == n1[k].start
        }
}

/// The state of a scan that has reached `idx` (no more nodes than bytes read, roots
/// counted consistently, open tags well placed).
pub open spec fn doc_wf(s: Seq<u8>, idx: int, st: DocState) -> bool {
    &&& s.len() <= u32::MAX
    &&& 0 <= idx <= s.len()
    &&& st.nodes.len() <= idx
    &&& st.roots_len <= st.nodes.len()
    &&& st.roots.len() <= st.roots_len
    &&& stack_ok(s, idx, st.nodes, st.stack)
}

pub proof fn lemma_stack_ok_mono(
    s: Seq<u8>,
    idx: int,
    idx2: int,
    n1: Seq<AsmNodeRecord>,
    n2: Seq<AsmNodeRecord>,
    stack: Seq<u32>,
)
    requires
        stack_ok(s, idx, n1, stack),
        idx <= idx2,
        spans_kept(n1, n2),
    ensures
        stack_ok(s, idx2, n2, stack),
{
    assert forall|k: int| 0 <= k < stack.len() implies {
        let h = #[trigger] stack[k] as int;
        &&& 0 <= h < n2.len()
        &&& n2[h].name_start + n2[h].name_len <= s.len()
        &&& n2[h].start <= idx2
    } by {
        let h = stack[k] as int;
        assert(0 <= h < n1.len());
        assert(n2[h].name_start == n1[h].name_start);
    }
}

/// Emitting a node keeps earlier node positions and the stack, and appends the node.
pub proof fn lemma_emit(s: Seq<u8>, idx: int, c: DocCaps, st: DocState, rec: AsmNodeRecord)
    requires
        doc_wf(s, idx, st),
        st.nodes.len() < idx,
    ensures
        ({
            let (r, st2) = emit_spec(c, st, rec);
            &&& spans_kept(st.nodes, st2.nodes)
            &&& st2.nodes.len() <= st.nodes.len() + 1
            &&& st2.stack == st.stack
            &&& st2.attrs == st.attrs
            &&& st2.version == st.version
            &&& st2.roots_len <= st2.nodes.len()
            &&& st2.roots.len() <= st2.roots_len
            &&& (r matches Ok(n) ==> {
                &&& n as int == st.nodes.len()
                &&& st2.nodes.len() == st.nodes.len() + 1
                &&& st2.nodes[n as int].name_start == rec.name_start
                &&& st2.nodes[n as int].name_len == rec.name_len
                &&& st2.nodes[n as int].start == rec.start
            })
        }),
{
    if st.nodes.len() < c.nodes {
        if st.stack.len() != 0 {
            assert(stack_ok(s, idx, st.nodes, st.stack));
            let k = st.stack.len() - 1;
            assert(0 <= st.stack[k] < st.nodes.len());
        }
    }
}

/// Where a run of comment bytes ends.
pub proof fn lemma_comment_scan(s: Seq<u8>, j: int)
    requires
        0 <= j <= s.len(),
    ensures
        j <= comment_scan(s, j) <= s.len(),
        comment_scan(s, j) + 2 < s.len() ==> occurs_at(s, comment_close(), comment_scan(s, j)),
    decreases s.len() - j,
{
    if j + 2 < s.len() && !occurs_at(s, comment_close(), j) {
        lemma_comment_scan(s, j + 1);
    }
}

/// The attribute list only adds attributes, and ends within the input.
pub proof fn lemma_attr_loop(s: Seq<u8>, c: DocCaps, i: int, st: DocState, sc: bool)
    requires
        0 <= i <= s.len(),
        s.len() <= usize::MAX,
    ensures
        match attr_loop(s, c, i, st, sc) {
            AttrLoop::Done(i2, st2, _) => {
                &&& i <= i2 <= s.len()
                &&& st2.nodes == st.nodes
                &&& st2.stack == st.stack
                &&& st2.roots == st.roots
                &&& st2.roots_len == st.roots_len
                &&& st2.version == st.version
                &&& st.attrs.len() <= st2.attrs.len()
            },
            AttrLoop::Full(st2) => {
                &&& st2.nodes == st.nodes
                &&& st2.stack == st.stack
                &&& st2.roots == st.roots
                &&& st2.roots_len == st.roots_len
                &&& st2.version == st.version
            },
        },
    decreases s.len() - i,
{
    lemma_run_end(s, i, Run::Blank);
    let i1 = run_end(s, i, Run::Blank);
    if i1 < s.len() {
        if s[i1] == SLASH {
            lemma_attr_loop(s, c, i1 + 1, st, true);
        } else if s[i1] == GT {
        } else {
            match attr_at(s, i1) {
                None => {
                    lemma_attr_loop(s, c, i1 + 1, st, sc);
                },
                Some(a) => {
                    if st.attrs.len() < c.attrs {
                        lemma_attr_at(s, i1);
                        let st2 = DocState { attrs: st.attrs.push(attr_rec(s, a)), ..st };
                        lemma_attr_loop(s, c, after_attr(s, a), st2, sc);
                    }
                },
            }
        }
    }
}

/// Every step that goes on moves forward and keeps the scan state well formed.
pub proof fn lemma_doc_step(s: Seq<u8>, c: DocCaps, idx: int, st: DocState)
    requires
        doc_wf(s, idx, st),
        idx < s.len(),
    ensures
        doc_step(s, c, idx, st) matches DocStep::Next(i, st2) ==> idx < i && doc_wf(s, i, st2),
{
    if s[idx] != LT {
        lemma_run_end(s, idx, Run::Until(LT));
        let e = run_end(s, idx, Run::Until(LT));
        lemma_emit(s, e, c, st, node_rec(1, idx, e - idx, 0, 0, 0, 0));
        let (r, st2) = emit_spec(c, st, node_rec(1, idx, e - idx, 0, 0, 0, 0));
        lemma_stack_ok_mono(s, idx, e, st.nodes, st2.nodes, st.stack);
    } else if idx + 1 >= s.len() {
        lemma_emit(s, idx + 1, c, st, node_rec(1, idx, 1, 0, 0, 0, 0));
        let (r, st2) = emit_spec(c, st, node_rec(1, idx, 1, 0, 0, 0, 0));
        lemma_stack_ok_mono(s, idx, idx + 1, st.nodes, st2.nodes, st.stack);
    } else if s[idx + 1] == SLASH {
        lemma_run_end(s, idx + 2, Run::Blank);
        let ns = run_end(s, idx + 2, Run::Blank);
        lemma_run_end(s, ns, Run::Until(GT));
        let e = run_end(s, ns, Run::Until(GT));
        let i = if e < s.len() {
            e + 1
        } else {
            e
        };
        if st.stack.len() != 0 {
            let h = st.stack.last() as int;
            let open = st.nodes[h];
            let nodes = st.nodes.update(h, AsmNodeRecord { len: (i - open.start) as u32, ..open });
            assert(spans_kept(st.nodes, nodes));
            lemma_stack_ok_mono(s, idx, i, st.nodes, nodes, st.stack);
            let stack2 = st.stack.drop_last();
            assert(stack_ok(s, i, nodes, stack2)) by {
                assert forall|k: int| 0 <= k < stack2.len() implies stack2[k] == st.stack[k] by {}
            }
        } else {
            lemma_stack_ok_mono(s, idx, i, st.nodes, st.nodes, st.stack);
        }
    } else if s[idx + 1] == BANG {
        if idx + 3 < s.len() && s[idx + 2] == DASH && s[idx + 3] == DASH {
            lemma_comment_scan(s, idx + 4);
            let j = comment_scan(s, idx + 4);
            let end = if j + 2 < s.len() {
                j + 3
            } else {
                s.len() as int
            };
            lemma_emit(s, end, c, st, node_rec(3, idx, end - idx, 0, 0, 0, 0));
            let (r, st2) = emit_spec(c, st, node_rec(3, idx, end - idx, 0, 0, 0, 0));
            lemma_stack_ok_mono(s, idx, end, st.nodes, st2.nodes, st.stack);
        } else {
            lemma_run_end(s, idx + 2, Run::Blank);
            let ws = run_end(s, idx + 2, Run::Blank);
            lemma_run_end(s, ws, Run::Ident);
            let we = run_end(s, ws, Run::Ident);
            lemma_run_end(s, we, Run::Blank);
            let vs = run_end(s, we, Run::Blank);
            lemma_run_end(s, vs, Run::Ident);
            let ve = run_end(s, vs, Run::Ident);
            lemma_run_end(s, ve, Run::Until(GT));
            let e = run_end(s, ve, Run::Until(GT));
            let i = if e < s.len() {
                e + 1
            } else {
                e
            };
            lemma_stack_ok_mono(s, idx, i, st.nodes, st.nodes, st.stack);
        }
    } else {
        lemma_run_end(s, idx + 1, Run::Blank);
        let ns = run_end(s, idx + 1, Run::Blank);
        lemma_run_end(s, ns, Run::Ident);
        let ne = run_end(s, ns, Run::Ident);
        if ne != ns {
            lemma_attr_loop(s, c, ne, st, false);
            match attr_loop(s, c, ne, st, false) {
                AttrLoop::Full(st2) => {},
                AttrLoop::Done(i, st2, sc) => {
                    let attr_start = st.attrs.len() as int;
                    let rec = node_rec(
                        2,
                        idx,
                        i - idx,
                        ns,
                        ne - ns,
                        attr_start,
                        st2.attrs.len() - attr_start,
                    );
                    lemma_stack_ok_mono(s, idx, i, st.nodes, st2.nodes, st.stack);
                    lemma_emit(s, i, c, st2, rec);
                    let (r, st3) = emit_spec(c, st2, rec);
                    lemma_stack_ok_mono(s, i, i, st2.nodes, st3.nodes, st3.stack);
                    if let Ok(node_idx) = r {
                        let stack2 = st3.stack.push(node_idx);
                        assert(stack_ok(s, i, st3.nodes, stack2)) by {
                            assert forall|k: int| 0 <= k < stack2.len() implies {
                                let h = #[trigger] stack2[k] as int;
                                &&& 0 <= h < st3.nodes.len()
                                &&& st3.nodes[h].name_start + st3.nodes[h].name_len <= s.len()
                                &&& st3.nodes[h].start <= i
                            } by {
                                if k < st3.stack.len() {
                                    assert(stack2[k] == st3.stack[k]);
                                }
                            }
                        }
                    }
                },
            }
        }
    }
}

} // verus!

verus! {

/// A caller-provided output buffer: its capacity, and whether it exists at all.
pub struct AsmBuffer {
    pub present: bool,
    pub cap: usize,
}

impl AsmBuffer {
    /// A buffer of `cap` records.
    pub fn new(cap: usize) -> (b: AsmBuffer)
        ensures
            b.present && b.cap == cap,
    {
        AsmBuffer { present: true, cap }
    }

    /// No buffer: records of its kind are counted, not stored.
    pub fn absent() -> (b: AsmBuffer)
        ensures
            !b.present && b.cap == 0,
    {
        AsmBuffer { present: false, cap: 0 }
    }
}

/// The output of a document scan, with the capacities it is bounded by.
pub struct AsmParseOutput {
    pub nodes: Vec<AsmNodeRecord>,
    pub nodes_cap: usize,
    pub attrs: Vec<AsmAttrRecord>,
    pub attrs_cap: usize,
    pub roots: Vec<u32>,
    pub roots_cap: usize,
    /// The number of top-level nodes, also where they are not recorded.
    pub roots_len: usize,
    pub record_roots: bool,
    pub stack_cap: usize,
    /// The depth of open tags when the scan ended.
    pub stack_len: usize,
    /// 1 when the document declared `<!doctype html>`, 0 otherwise.
    pub version: u32,
    /// The status the scan ended with.
    pub error: u32,
}

/// The capacities that bound a scan into `out`.
pub open spec fn caps_of(out: AsmParseOutput) -> DocCaps {
    DocCaps {
        nodes: out.nodes_cap as int,
        attrs: out.attrs_cap as int,
        roots: out.roots_cap as int,
        record_roots: out.record_roots,
        stack: out.stack_cap as int,
    }
}

/// What `out` holds, with the stack of open tags.
pub open spec fn state_of(out: AsmParseOutput, stack: Seq<u32>) -> DocState {
    DocState {
        nodes: out.nodes@,
        attrs: out.attrs@,
        roots: out.roots@,
        roots_len: out.roots_len as int,
        stack,
        version: out.version,
    }
}

impl AsmParseOutput {
    /// An empty output over the four buffers; only the root buffer may be absent.
    pub fn from_raw_parts(
        nodes: AsmBuffer,
        attrs: AsmBuffer,
        roots: AsmBuffer,
        stack: AsmBuffer,
    ) -> (out: AsmParseOutput)
        ensures
            caps_of(out) == (DocCaps {
                nodes: nodes.cap as int,
                attrs: attrs.cap as int,
                roots: roots.cap as int,
                record_roots: roots.present,
                stack: stack.cap as int,
            }),
            state_of(out, seq![]) == empty_doc_state(),
            out.stack_len == 0,
            out.error == 0,
    {
        AsmParseOutput {
            nodes: Vec::new(),
            nodes_cap: nodes.cap,
            attrs: Vec::new(),
            attrs_cap: attrs.cap,
            roots: Vec::new(),
            roots_cap: roots.cap,
            roots_len: 0,
            record_roots: roots.present,
            stack_cap: stack.cap,
            stack_len: 0,
            version: 0,
            error: 0,
        }
    }
}

/// The outcome of one exec step.
enum Flow {
    Next(usize),
    Stop(u32),
}

spec fn flow_ok(f: Flow, after: DocState, d: DocStep) -> bool {
    match (f, d) {
        (Flow::Next(n), DocStep::Next(i, st)) => n as int == i && after == st,
        (Flow::Stop(a), DocStep::Stop(b, st)) => a == b && after == st,
        _ => false,
    }
}

/// Appends a node record, as [`emit_spec`] describes it.
fn emit_node(
    out: &mut AsmParseOutput,
    stack: &Vec<u32>,
    kind: u32,
    start: usize,
    len: usize,
    name_start: usize,
    name_len: usize,
    attr_start: usize,
    attr_count: usize,
) -> (res: Result<u32, u32>)
    requires
        forall|k: int| 0 <= k < stack@.len() ==> (#[trigger] stack@[k] as int) < old(out).nodes@.len(),
        old(out).nodes@.len() < u32::MAX,
        old(out).roots_len < u32::MAX,
    ensures
        (res, state_of(*final(out), stack@)) == emit_spec(
            caps_of(*old(out)),
            state_of(*old(out), stack@),
            node_rec(
                kind,
                start as int,
                len as int,
                name_start as int,
                name_len as int,
                attr_start as int,
                attr_count as int,
            ),
        ),
        caps_of(*final(out)) == caps_of(*old(out)),
        final(out).error == old(out).error,
        final(out).stack_len == old(out).stack_len,
{
    if out.nodes.len() >= out.nodes_cap {
        return Err(1);
    }
    let idx = out.nodes.len();
    let parent = if stack.len() == 0 {
        u32::MAX
    } else {
        stack[stack.len() - 1]
    };
    let record = AsmNodeRecord {
        kind,
        flags: 0,
        parent,
        attr_start: attr_start as u32,
        attr_count: attr_count as u32,
        start: start as u32,
        len: len as u32,
        name_start: name_start as u32,
        name_len: name_len as u32,
    };
    out.nodes.push(record);
    if parent == u32::MAX {
        if out.record_roots {
            if out.roots_len >= out.roots_cap {
                return Err(3);
            }
            out.roots.push(idx as u32);
        }
        out.roots_len = out.roots_len + 1;
    } else {
        let p = parent as usize;
        let mut prec = out.nodes[p];
        prec.flags = if prec.flags == u32::MAX {
            prec.flags
        } else {
            prec.flags + 1
        };
        out.nodes.set(p, prec);
    }
    Ok(idx as u32)
}

} // verus!

verus! {

/// A closing tag at `idx`, as [`close_step`] describes it.
fn close_exec(input: &[u8], idx: usize, out: &mut AsmParseOutput, stack: &mut Vec<u32>) -> (res: Flow)
    requires
        doc_wf(input@, idx as int, state_of(*old(out), old(stack)@)),
        idx + 1 < input@.len(),
        old(out).stack_len == old(stack)@.len(),
    ensures
        flow_ok(
            res,
            state_of(*final(out), final(stack)@),
            close_step(input@, idx as int, state_of(*old(out), old(stack)@)),
        ),
        caps_of(*final(out)) == caps_of(*old(out)),
        final(out).error == old(out).error,
        final(out).stack_len == final(stack)@.len(),
{
    let ns = scan_run(input, idx + 2, Run::Blank);
    let e = scan_run(input, ns, Run::Until(GT));
    let i = if e < input.len() {
        e + 1
    } else {
        e
    };
    if stack.len() == 0 {
        return Flow::Next(i);
    }
    let open_idx = stack[stack.len() - 1] as usize;
    proof {
        let k = stack@.len() - 1;
        assert(stack_ok(input@, idx as int, out.nodes@, stack@));
        assert(0 <= stack@[k] < out.nodes@.len());
    }
    let open = out.nodes[open_idx];
    let on_s = open.name_start as usize;
    let on_l = open.name_len as usize;
    let open_name = slice_subrange(input, on_s, on_s + on_l);
    let close_name = slice_subrange(input, ns, e);
    if bytes_eq(open_name, close_name) {
        stack.pop();
        out.stack_len = stack.len();
        let mut o = open;
        o.len = (i - open.start as usize) as u32;
        out.nodes.set(open_idx, o);
    }
    Flow::Next(i)
}

/// A comment at `idx`, as [`comment_step`] describes it.
fn comment_exec(input: &[u8], idx: usize, out: &mut AsmParseOutput, stack: &Vec<u32>) -> (res: Flow)
    requires
        doc_wf(input@, idx as int, state_of(*old(out), stack@)),
        idx + 3 < input@.len(),
    ensures
        flow_ok(
            res,
            state_of(*final(out), stack@),
            comment_step(input@, caps_of(*old(out)), idx as int, state_of(*old(out), stack@)),
        ),
        caps_of(*final(out)) == caps_of(*old(out)),
        final(out).error == old(out).error,
        final(out).stack_len == old(out).stack_len,
{
    let close: &[u8] = &[45u8, 45, 62];
    assert(close@ == comment_close());
    let mut j = idx + 4;
    while input.len() - j > 2 && !matches_at(input, close, j)
        invariant
            idx + 4 <= j <= input@.len(),
            input@.len() == input.len(),
            input@.len() <= u32::MAX,
            close@ == comment_close(),
            comment_scan(input@, idx + 4) == comment_scan(input@, j as int),
        decreases input@.len() - j,
    {
        j = j + 1;
    }
    let end = if input.len() - j > 2 {
        j + 3
    } else {
        input.len()
    };
    proof {
        assert(stack_ok(input@, idx as int, out.nodes@, stack@));
    }
    match emit_node(out, stack, 3, idx, end - idx, 0, 0, 0, 0) {
        Ok(_) => Flow::Next(end),
        Err(code) => Flow::Stop(code),
    }
}

/// A declaration at `idx`, as [`doctype_step`] describes it.
fn doctype_exec(input: &[u8], idx: usize, out: &mut AsmParseOutput, stack: &Vec<u32>) -> (res: Flow)
    requires
        doc_wf(input@, idx as int, state_of(*old(out), stack@)),
        idx + 1 < input@.len(),
    ensures
        flow_ok(
            res,
            state_of(*final(out), stack@),
            doctype_step(input@, idx as int, state_of(*old(out), stack@)),
        ),
        caps_of(*final(out)) == caps_of(*old(out)),
        final(out).error == old(out).error,
        final(out).stack_len == old(out).stack_len,
{
    let ws = scan_run(input, idx + 2, Run::Blank);
    let we = scan_run(input, ws, Run::Ident);
    let word = slice_subrange(input, ws, we);
    let doctype: &[u8] = &[100u8, 111, 99, 116, 121, 112, 101];
    assert(doctype@ == doctype_name());
    if !(word.len() == 7 && matches_case_insensitive(word, doctype)) {
        return Flow::Stop(5);
    }
    let vs = scan_run(input, we, Run::Blank);
    let ve = scan_run(input, vs, Run::Ident);
    let value = slice_subrange(input, vs, ve);
    let html: &[u8] = &[104u8, 116, 109, 108];
    assert(html@ == html_name());
    if value.len() == 4 && matches_case_insensitive(value, html) {
        out.version = 1;
    }
    let e = scan_run(input, ve, Run::Until(GT));
    let i = if e < input.len() {
        e + 1
    } else {
        e
    };
    Flow::Next(i)
}

} // verus!

verus! {

enum AttrsFlow {
    Done(usize, bool),
    Full,
}

spec fn attrs_ok(f: AttrsFlow, after: DocState, l: AttrLoop) -> bool {
    match (f, l) {
        (AttrsFlow::Done(n, sc), AttrLoop::Done(i, st, sc2)) => n as int == i && sc == sc2 && after
            == st,
        (AttrsFlow::Full, AttrLoop::Full(st)) => after == st,
        _ => false,
    }
}

/// The attribute list of an opening tag from `i0`, as [`attr_loop`] describes it.
fn attrs_exec(input: &[u8], i0: usize, out: &mut AsmParseOutput, stack: &Vec<u32>) -> (res:
    AttrsFlow)
    requires
        i0 <= input@.len(),
        input@.len() <= u32::MAX,
    ensures
        attrs_ok(
            res,
            state_of(*final(out), stack@),
            attr_loop(input@, caps_of(*old(out)), i0 as int, state_of(*old(out), stack@), false),
        ),
        caps_of(*final(out)) == caps_of(*old(out)),
        final(out).error == old(out).error,
        final(out).stack_len == old(out).stack_len,
{
    let ghost s = input@;
    let ghost c = caps_of(*out);
    let ghost st0 = state_of(*out, stack@);
    let mut idx = i0;
    let mut sc = false;
    loop
        invariant
            idx <= s.len(),
            s == input@,
            s.len() <= u32::MAX,
            c == caps_of(*out),
            c == caps_of(*old(out)),
            st0 == state_of(*old(out), stack@),
            out.error == old(out).error,
            out.stack_len == old(out).stack_len,
            attr_loop(s, c, i0 as int, st0, false) == attr_loop(
                s,
                c,
                idx as int,
                state_of(*out, stack@),
                sc,
            ),
        decreases s.len() - idx,
    {
        proof {
            lemma_run_end(s, idx as int, Run::Blank);
        }
        let i1 = scan_run(input, idx, Run::Blank);
        if i1 >= input.len() {
            assert(attr_loop(s, c, idx as int, state_of(*out, stack@), sc) == AttrLoop::Done(
                i1 as int,
                state_of(*out, stack@),
                sc,
            ));
            return AttrsFlow::Done(i1, sc);
        }
        let b = input[i1];
        if b == SLASH {
            sc = true;
            idx = i1 + 1;
        } else if b == GT {
            return AttrsFlow::Done(i1 + 1, sc);
        } else {
            match parse_attr_at(input, i1) {
                None => {
                    idx = i1 + 1;
                },
                Some(a) => {
                    if out.attrs.len() >= out.attrs_cap {
                        assert(attr_loop(s, c, idx as int, state_of(*out, stack@), sc)
                            == AttrLoop::Full(state_of(*out, stack@)));
                        return AttrsFlow::Full;
                    }
                    proof {
                        lemma_attr_at(s, i1 as int);
                    }
                    let key = slice_subrange(input, a.name_start, a.name_start + a.name_len);
                    let record = AsmAttrRecord {
                        name_start: a.name_start as u32,
                        name_len: a.name_len as u32,
                        value_start: a.value_start as u32,
                        value_len: a.value_len as u32,
                        has_value: a.has_value,
                        key_kind: attr_key_kind(key),
                    };
                    out.attrs.push(record);
                    let n = a.next_idx;
                    idx = if a.has_value != 0 && n < input.len() && input[n] != SLASH && input[n]
                        != GT {
                        n + 1
                    } else {
                        n
                    };
                    assert(record == attr_rec(s, a));
                },
            }
        }
    }
}

/// An opening tag at `idx`, as [`open_step`] describes it.
fn open_exec(input: &[u8], idx: usize, out: &mut AsmParseOutput, stack: &mut Vec<u32>) -> (res: Flow)
    requires
        doc_wf(input@, idx as int, state_of(*old(out), old(stack)@)),
        idx + 1 < input@.len(),
        old(out).stack_len == old(stack)@.len(),
    ensures
        flow_ok(
            res,
            state_of(*final(out), final(stack)@),
            open_step(input@, caps_of(*old(out)), idx as int, state_of(*old(out), old(stack)@)),
        ),
        caps_of(*final(out)) == caps_of(*old(out)),
        final(out).error == old(out).error,
        final(out).stack_len == final(stack)@.len(),
{
    let ghost s = input@;
    let ghost c = caps_of(*out);
    let ghost st0 = state_of(*out, stack@);
    let ns = scan_run(input, idx + 1, Run::Blank);
    let ne = scan_run(input, ns, Run::Ident);
    if ne == ns {
        return Flow::Stop(0);
    }
    let attr_start = out.attrs.len();
    proof {
        lemma_attr_loop(s, c, ne as int, st0, false);
    }
    let i = match attrs_exec(input, ne, out, stack) {
        AttrsFlow::Full => {
            return Flow::Stop(2);
        },
        AttrsFlow::Done(i, sc) => {
            let ghost st2 = state_of(*out, stack@);
            proof {
                lemma_stack_ok_mono(s, idx as int, i as int, st0.nodes, st2.nodes, st0.stack);
            }
            let attr_count = out.attrs.len() - attr_start;
            let emitted = emit_node(out, stack, 2, idx, i - idx, ns, ne - ns, attr_start, attr_count);
            match emitted {
                Err(code) => {
                    return Flow::Stop(code);
                },
                Ok(node_idx) => {
                    let name = slice_subrange(input, ns, ne);
                    if !sc && !is_void_tag(name) {
                        if stack.len() >= out.stack_cap {
                            return Flow::Stop(4);
                        }
                        stack.push(node_idx);
                        out.stack_len = stack.len();
                    }
                },
            }
            i
        },
    };
    Flow::Next(i)
}

/// One scan step at `idx`, as [`doc_step`] describes it.
fn step_exec(input: &[u8], idx: usize, out: &mut AsmParseOutput, stack: &mut Vec<u32>) -> (res: Flow)
    requires
        doc_wf(input@, idx as int, state_of(*old(out), old(stack)@)),
        idx < input@.len(),
        old(out).stack_len == old(stack)@.len(),
    ensures
        flow_ok(
            res,
            state_of(*final(out), final(stack)@),
            doc_step(input@, caps_of(*old(out)), idx as int, state_of(*old(out), old(stack)@)),
        ),
        caps_of(*final(out)) == caps_of(*old(out)),
        final(out).error == old(out).error,
        final(out).stack_len == final(stack)@.len(),
{
    proof {
        assert(stack_ok(input@, idx as int, out.nodes@, stack@));
    }
    if input[idx] != LT {
        let e = scan_run(input, idx, Run::Until(LT));
        return match emit_node(out, stack, 1, idx, e - idx, 0, 0, 0, 0) {
            Ok(_) => Flow::Next(e),
            Err(code) => Flow::Stop(code),
        };
    }
    if input.len() - idx <= 1 {
        return match emit_node(out, stack, 1, idx, 1, 0, 0, 0, 0) {
            Ok(_) => Flow::Next(idx + 1),
            Err(code) => Flow::Stop(code),
        };
    }
    let next = input[idx + 1];
    if next == SLASH {
        close_exec(input, idx, out, stack)
    } else if next == BANG {
        if input.len() - idx > 3 && input[idx + 2] == DASH && input[idx + 3] == DASH {
            comment_exec(input, idx, out, stack)
        } else {
            doctype_exec(input, idx, out, stack)
        }
    } else {
        open_exec(input, idx, out, stack)
    }
}

/// Scans a whole document into `out`, whose record buffers are first emptied, and returns
/// the status, which is also left in `out.error`: 0 when the scan ran to its end or met
/// `<` followed by no tag name, 1 when the node buffer ran out, 2 the attribute buffer,
/// 3 the root buffer, 4 the stack of open tags, 5 for a `<!` declaration other than a
/// doctype. An input longer than `u32::MAX` bytes gets 5 and leaves `out` untouched.
pub fn rbtl_rust_msvc_parse_document(input: &[u8], out: &mut AsmParseOutput) -> (res: u32)
    ensures
        input@.len() > u32::MAX ==> res == 5 && *final(out) == *old(out),
        input@.len() <= u32::MAX ==> {
            let (code, st) = document_scan(input@, caps_of(*old(out)));
            &&& res == code
            &&& final(out).error == code
            &&& state_of(*final(out), st.stack) == st
            &&& final(out).stack_len == st.stack.len()
            &&& caps_of(*final(out)) == caps_of(*old(out))
        },
{
    if input.len() > 4294967295usize {
        return 5;
    }
    let ghost s = input@;
    let ghost c = caps_of(*out);
    out.nodes.clear();
    out.attrs.clear();
    out.roots.clear();
    out.roots_len = 0;
    out.stack_len = 0;
    out.version = 0;
    out.error = 0;
    let mut stack: Vec<u32> = Vec::new();
    let mut idx: usize = 0;
    assert(state_of(*out, stack@) == empty_doc_state());
    while idx < input.len()
        invariant
            s == input@,
            c == caps_of(*out),
            c == caps_of(*old(out)),
            doc_wf(s, idx as int, state_of(*out, stack@)),
            document_scan(s, c) == doc_run(s, c, idx as int, state_of(*out, stack@)),
            out.error == 0,
            out.stack_len == stack@.len(),
        decreases s.len() - idx,
    {
        let ghost st_before = state_of(*out, stack@);
        proof {
            lemma_doc_step(s, c, idx as int, state_of(*out, stack@));
        }
        match step_exec(input, idx, out, &mut stack) {
            Flow::Next(i) => {
                idx = i;
            },
            Flow::Stop(code) => {
                assert(doc_run(s, c, idx as int, st_before) == (code, state_of(*out, stack@)));
                out.error = code;
                return code;
            },
        }
    }
    0
}

} // verus!

verus! {

/// Node `k` has no parent (`u32::MAX`) or an earlier tag as its parent.
pub open spec fn parent_ok(nodes: Seq<AsmNodeRecord>, k: int) -> bool {
    let p = nodes[k].parent;
    p == u32::MAX || (p < k && nodes[p as int].kind == 2)
}

/// The records of a scan stay within their buffers and describe a forest: there are no more
/// nodes, attributes, recorded top-level nodes and open tags than the capacities allow, the
/// parent of each node is none or an earlier tag, and the open tags are tags.
pub open spec fn doc_bounded(c: DocCaps, st: DocState) -> bool {
    &&& st.nodes.len() <= c.nodes
    &&& st.attrs.len() <= c.attrs
    &&& st.roots.len() <= c.roots
    &&& st.stack.len() <= c.stack
    &&& forall|k: int| 0 <= k < st.nodes.len() ==> #[trigger] parent_ok(st.nodes, k)
    &&& forall|k: int|
        0 <= k < st.stack.len() ==> 0 <= #[trigger] st.stack[k] < st.nodes.len() && st.nodes[st.stack[k] as int].kind
            == 2
}

/// Emitting a node keeps the records bounded; the new node has the kind it was given.
proof fn lemma_emit_bounded(c: DocCaps, st: DocState, rec: AsmNodeRecord)
    requires
        doc_bounded(c, st),
        st.roots.len() <= st.roots_len,
        st.nodes.len() <= u32::MAX,
    ensures
        ({
            let (r, st2) = emit_spec(c, st, rec);
            &&& doc_bounded(c, st2)
            &&& st2.stack == st.stack
            &&& st2.attrs == st.attrs
            &&& (r matches Ok(n) ==> n as int == st.nodes.len() && st2.nodes.len() == st.nodes.len() + 1
                && st2.nodes[n as int].kind == rec.kind)
        }),
{
    if st.nodes.len() < c.nodes {
        let idx = st.nodes.len() as int;
        let parent = if st.stack.len() == 0 {
            u32::MAX
        } else {
            st.stack.last()
        };
        if st.stack.len() != 0 {
            assert(st.stack[st.stack.len() - 1] == st.stack.last());
        }
        let r = AsmNodeRecord { flags: 0, parent, ..rec };
        let nodes = st.nodes.push(r);
        let (res, st2) = emit_spec(c, st, rec);
        assert forall|k: int| 0 <= k < nodes.len() implies #[trigger] parent_ok(nodes, k) by {
            if k < idx {
                assert(parent_ok(st.nodes, k));
                assert(nodes[k] == st.nodes[k]);
                let p = st.nodes[k].parent;
                if p != u32::MAX {
                    assert(nodes[p as int] == st.nodes[p as int]);
                }
            }
        }
        if parent != u32::MAX {
            let pr = nodes[parent as int];
            let nodes2 = nodes.update(parent as int, AsmNodeRecord { flags: sat_inc(pr.flags), ..pr });
            assert(st2.nodes == nodes2);
            assert forall|k: int| 0 <= k < nodes2.len() implies #[trigger] parent_ok(nodes2, k) by {
                assert(parent_ok(nodes, k));
                assert(nodes2[k].parent == nodes[k].parent);
                let p = nodes[k].parent;
                if p != u32::MAX {
                    assert(nodes2[p as int].kind == nodes[p as int].kind);
                }
            }
            assert forall|k: int| 0 <= k < st2.stack.len() implies 0 <= #[trigger] st2.stack[k] < st2.nodes.len()
                && st2.nodes[st2.stack[k] as int].kind == 2 by {
                assert(nodes2[st.stack[k] as int].kind == st.nodes[st.stack[k] as int].kind);
            }
        } else {
            assert forall|k: int| 0 <= k < st2.stack.len() implies 0 <= #[trigger] st2.stack[k] < st2.nodes.len()
                && st2.nodes[st2.stack[k] as int].kind == 2 by {
                assert(nodes[st.stack[k] as int] == st.nodes[st.stack[k] as int]);
            }
        }
    }
}

/// The attribute list writes no more attributes than the buffer holds.
proof fn lemma_attr_loop_bounded(s: Seq<u8>, c: DocCaps, i: int, st: DocState, sc: bool)
    requires
        0 <= i <= s.len(),
        s.len() <= usize::MAX,
        st.attrs.len() <= c.attrs,
    ensures
        match attr_loop(s, c, i, st, sc) {
            AttrLoop::Done(_, st2, _) => st2.attrs.len() <= c.attrs,
            AttrLoop::Full(st2) => st2.attrs.len() <= c.attrs,
        },
    decreases s.len() - i,
{
    lemma_run_end(s, i, Run::Blank);
    let i1 = run_end(s, i, Run::Blank);
    if i1 < s.len() {
        if s[i1] == SLASH {
            lemma_attr_loop_bounded(s, c, i1 + 1, st, true);
        } else if s[i1] == GT {
        } else {
            match attr_at(s, i1) {
                None => {
                    lemma_attr_loop_bounded(s, c, i1 + 1, st, sc);
                },
                Some(a) => {
                    if st.attrs.len() < c.attrs {
                        lemma_attr_at(s, i1);
                        let st2 = DocState { attrs: st.attrs.push(attr_rec(s, a)), ..st };
                        lemma_attr_loop_bounded(s, c, after_attr(s, a), st2, sc);
                    }
                },
            }
        }
    }
}

/// Every step keeps the records bounded.
proof fn lemma_doc_step_bounded(s: Seq<u8>, c: DocCaps, idx: int, st: DocState)
    requires
        doc_wf(s, idx, st),
        doc_bounded(c, st),
        idx < s.len(),
    ensures
        match doc_step(s, c, idx, st) {
            DocStep::Next(_, st2) => doc_bounded(c, st2),
            DocStep::Stop(_, st2) => doc_bounded(c, st2),
        },
{
    if s[idx] != LT {
        let e = run_end(s, idx, Run::Until(LT));
        lemma_emit_bounded(c, st, node_rec(1, idx, e - idx, 0, 0, 0, 0));
    } else if idx + 1 >= s.len() {
        lemma_emit_bounded(c, st, node_rec(1, idx, 1, 0, 0, 0, 0));
    } else if s[idx + 1] == SLASH {
        let ns = run_end(s, idx + 2, Run::Blank);
        let e = run_end(s, ns, Run::Until(GT));
        let i = if e < s.len() {
            e + 1
        } else {
            e
        };
        if st.stack.len() != 0 {
            let h = st.stack.last() as int;
            assert(st.stack[st.stack.len() - 1] == st.stack.last());
            let open = st.nodes[h];
            let nodes = st.nodes.update(h, AsmNodeRecord { len: (i - open.start) as u32, ..open });
            let stack2 = st.stack.drop_last();
            assert forall|k: int| 0 <= k < nodes.len() implies #[trigger] parent_ok(nodes, k) by {
                assert(parent_ok(st.nodes, k));
                let p = st.nodes[k].parent;
                if p != u32::MAX {
                    assert(nodes[p as int].kind == st.nodes[p as int].kind);
                }
            }
            assert forall|k: int| 0 <= k < stack2.len() implies 0 <= #[trigger] stack2[k] < nodes.len()
                && nodes[stack2[k] as int].kind == 2 by {
                assert(stack2[k] == st.stack[k]);
            }
        }
    } else if s[idx + 1] == BANG {
        if idx + 3 < s.len() && s[idx + 2] == DASH && s[idx + 3] == DASH {
            let j = comment_scan(s, idx + 4);
            let end = if j + 2 < s.len() {
                j + 3
            } else {
                s.len() as int
            };
            lemma_emit_bounded(c, st, node_rec(3, idx, end - idx, 0, 0, 0, 0));
        }
    } else {
        lemma_run_end(s, idx + 1, Run::Blank);
        let ns = run_end(s, idx + 1, Run::Blank);
        lemma_run_end(s, ns, Run::Ident);
        let ne = run_end(s, ns, Run::Ident);
        if ne != ns {
            lemma_attr_loop(s, c, ne, st, false);
            lemma_attr_loop_bounded(s, c, ne, st, false);
            match attr_loop(s, c, ne, st, false) {
                AttrLoop::Full(st2) => {},
                AttrLoop::Done(i, st2, sc) => {
                    let attr_start = st.attrs.len() as int;
                    let rec = node_rec(
                        2,
                        idx,
                        i - idx,
                        ns,
                        ne - ns,
                        attr_start,
                        st2.attrs.len() - attr_start,
                    );
                    lemma_emit_bounded(c, st2, rec);
                    let (r, st3) = emit_spec(c, st2, rec);
                    if let Ok(node_idx) = r {
                        let stack2 = st3.stack.push(node_idx);
                        assert forall|k: int| 0 <= k < stack2.len() implies 0 <= #[trigger] stack2[k]
                            < st3.nodes.len() && st3.nodes[stack2[k] as int].kind == 2 by {
                            if k < st3.stack.len() {
                                assert(stack2[k] == st3.stack[k]);
                            }
                        }
                    }
                },
            }
        }
    }
}

/// The rest of a scan keeps the records bounded.
proof fn lemma_doc_run_bounded(s: Seq<u8>, c: DocCaps, idx: int, st: DocState)
    requires
        doc_bounded(c, st),
    ensures
        doc_bounded(c, doc_run(s, c, idx, st).1),
    decreases s.len() - idx,
{
    if doc_wf(s, idx, st) && idx < s.len() {
        lemma_doc_step(s, c, idx, st);
        lemma_doc_step_bounded(s, c, idx, st);
        match doc_step(s, c, idx, st) {
            DocStep::Next(i, st2) => {
                lemma_doc_run_bounded(s, c, i, st2);
            },
            DocStep::Stop(_, _) => {},
        }
    }
}

/// Whatever status a scan ends with, its records stay within the buffers (no more nodes,
/// attributes, recorded top-level nodes and open tags than the capacities allow) and
/// describe a forest: the parent of each node is none (`u32::MAX`) or an earlier tag.
pub proof fn lemma_scan_bounded(s: Seq<u8>, c: DocCaps)
    requires
        c.nodes >= 0,
        c.attrs >= 0,
        c.roots >= 0,
        c.stack >= 0,
    ensures
        doc_bounded(c, document_scan(s, c).1),
{
    lemma_doc_run_bounded(s, c, 0, empty_doc_state());
}

} // verus!

verus! {

/// The number of records whose parent is record `p`.
pub open spec fn child_count(nodes: Seq<AsmNodeRecord>, p: int) -> nat
    decreases nodes.len(),
{
    if nodes.len() == 0 {
        0
    } else {
        child_count(nodes.drop_last(), p) + if nodes.last().parent == p {
            1nat
        } else {
            0nat
        }
    }
}

/// The indices of the records that have no parent, in increasing order.
pub open spec fn parentless(nodes: Seq<AsmNodeRecord>) -> Seq<u32>
    decreases nodes.len(),
{
    if nodes.len() == 0 {
        seq![]
    } else {
        let rest = parentless(nodes.drop_last());
        if nodes.last().parent == u32::MAX {
            rest.push((nodes.len() - 1) as u32)
        } else {
            rest
        }
    }
}

/// The child count of each record is its number of children, the top-level count is the
/// number of records without a parent, and the recorded top-level list (where there is
/// one) is exactly those records in index order.
pub open spec fn counts_ok(c: DocCaps, st: DocState) -> bool {
    &&& forall|k: int|
        0 <= k < st.nodes.len() ==> #[trigger] st.nodes[k].flags == child_count(st.nodes, k)
    &&& st.roots_len == parentless(st.nodes).len()
    &&& c.record_roots ==> st.roots == parentless(st.nodes)
}

/// Counting depends on the parents alone.
proof fn lemma_same_parents(n1: Seq<AsmNodeRecord>, n2: Seq<AsmNodeRecord>)
    requires
        n1.len() == n2.len(),
        forall|k: int| 0 <= k < n1.len() ==> #[trigger] n2[k].parent == n1[k].parent,
    ensures
        forall|p: int| #[trigger] child_count(n2, p) == child_count(n1, p),
        parentless(n2) == parentless(n1),
    decreases n1.len(),
{
    if n1.len() > 0 {
        let d1 = n1.drop_last();
        let d2 = n2.drop_last();
        assert forall|k: int| 0 <= k < d1.len() implies #[trigger] d2[k].parent == d1[k].parent by {
            assert(d2[k] == n2[k] && d1[k] == n1[k]);
        }
        lemma_same_parents(d1, d2);
        assert(n2.last().parent == n1.last().parent) by {
            assert(n2[n2.len() - 1].parent == n1[n1.len() - 1].parent);
        }
        assert forall|p: int| #[trigger] child_count(n2, p) == child_count(n1, p) by {
            assert(child_count(d2, p) == child_count(d1, p));
        }
    }
}

/// Appending a record adds it to the count of its parent, and to the parentless records
/// where it has no parent.
proof fn lemma_push_counts(nodes: Seq<AsmNodeRecord>, r: AsmNodeRecord)
    ensures
        forall|p: int| #[trigger] child_count(nodes.push(r), p) == child_count(nodes, p) + if r.parent
            == p {
            1nat
        } else {
            0nat
        },
        parentless(nodes.push(r)) == if r.parent == u32::MAX {
            parentless(nodes).push(nodes.len() as u32)
        } else {
            parentless(nodes)
        },
{
    assert(nodes.push(r).drop_last() =~= nodes);
}

/// A record that no record names as parent has no children.
proof fn lemma_no_children(nodes: Seq<AsmNodeRecord>, p: int)
    requires
        forall|k: int| 0 <= k < nodes.len() ==> #[trigger] nodes[k].parent != p,
    ensures
        child_count(nodes, p) == 0,
    decreases nodes.len(),
{
    if nodes.len() > 0 {
        let d = nodes.drop_last();
        assert forall|k: int| 0 <= k < d.len() implies #[trigger] d[k].parent != p by {
            assert(d[k] == nodes[k]);
        }
        lemma_no_children(d, p);
        assert(nodes.last().parent != p) by {
            assert(nodes[nodes.len() - 1].parent != p);
        }
    }
}

/// No record has more children than there are records.
proof fn lemma_child_count_bound(nodes: Seq<AsmNodeRecord>, p: int)
    ensures
        child_count(nodes, p) <= nodes.len(),
    decreases nodes.len(),
{
    if nodes.len() > 0 {
        lemma_child_count_bound(nodes.drop_last(), p);
    }
}

/// Emitting a node keeps the counts: the new node has no children, its parent gains one,
/// and a new top-level node is counted (and recorded, where roots are). When the root
/// buffer is full, the state is the one before with the node appended.
proof fn lemma_emit_counts(c: DocCaps, st: DocState, rec: AsmNodeRecord)
    requires
        doc_bounded(c, st),
        counts_ok(c, st),
        st.nodes.len() < u32::MAX,
    ensures
        ({
            let (r, st2) = emit_spec(c, st, rec);
            &&& r is Ok ==> counts_ok(c, st2)
            &&& r == Err::<u32, u32>(3) ==> st2.nodes.len() > 0 && st2.nodes.last().parent
                == u32::MAX && st2.nodes.last().flags == 0 && (DocState { nodes: st2.nodes.drop_last(), ..st2 }) == st
            &&& r == Err::<u32, u32>(1) ==> st2 == st
            &&& r is Err ==> r == Err::<u32, u32>(1) || r == Err::<u32, u32>(3)
        }),
{
    if st.nodes.len() < c.nodes {
        let idx = st.nodes.len() as int;
        let parent = if st.stack.len() == 0 {
            u32::MAX
        } else {
            st.stack.last()
        };
        if st.stack.len() != 0 {
            assert(st.stack[st.stack.len() - 1] == st.stack.last());
        }
        let r = AsmNodeRecord { flags: 0, parent, ..rec };
        let nodes = st.nodes.push(r);
        let (res, st2) = emit_spec(c, st, rec);
        lemma_push_counts(st.nodes, r);
        assert forall|j: int| 0 <= j < st.nodes.len() implies #[trigger] st.nodes[j].parent != idx by {
            assert(parent_ok(st.nodes, j));
        }
        lemma_no_children(st.nodes, idx);
        assert(child_count(nodes, idx) == 0);
        assert forall|k: int| 0 <= k < nodes.len() && k != parent implies #[trigger] nodes[k].flags
            == child_count(nodes, k) by {
            if k < idx {
                assert(nodes[k] == st.nodes[k]);
                assert(st.nodes[k].flags == child_count(st.nodes, k));
            }
        }
        assert(nodes.drop_last() =~= st.nodes);
        if parent != u32::MAX {
            let pr = nodes[parent as int];
            let nodes2 = nodes.update(parent as int, AsmNodeRecord { flags: sat_inc(pr.flags), ..pr });
            assert(st2.nodes == nodes2);
            lemma_child_count_bound(st.nodes, parent as int);
            assert(pr == st.nodes[parent as int]);
            assert(pr.flags == child_count(st.nodes, parent as int));
            assert forall|k: int| 0 <= k < nodes.len() implies #[trigger] nodes2[k].parent
                == nodes[k].parent by {}
            lemma_same_parents(nodes, nodes2);
            assert forall|k: int| 0 <= k < nodes2.len() implies #[trigger] nodes2[k].flags
                == child_count(nodes2, k) by {
                assert(child_count(nodes2, k) == child_count(nodes, k));
                if k != parent {
                    assert(nodes2[k] == nodes[k]);
                    assert(nodes[k].flags == child_count(nodes, k));
                }
            }
        } else {
            assert forall|k: int| 0 <= k < nodes.len() implies #[trigger] nodes[k].flags
                == child_count(nodes, k) by {
                assert(k != parent);
            }
        }
    }
}

/// What holds of the counts of a scan that ended with status `code`: they are exact,
/// except that a scan stopped by a full root buffer has appended one last top-level node
/// that is neither counted nor recorded.
pub open spec fn counts_after(c: DocCaps, code: u32, st: DocState) -> bool {
    if code == 3 {
        &&& 0 < st.nodes.len() <= u32::MAX
        &&& st.nodes.last().parent == u32::MAX
        &&& st.nodes.last().flags == 0
        &&& counts_ok(c, DocState { nodes: st.nodes.drop_last(), ..st })
    } else {
        counts_ok(c, st)
    }
}

/// Every step keeps the counts exact.
proof fn lemma_doc_step_counts(s: Seq<u8>, c: DocCaps, idx: int, st: DocState)
    requires
        doc_wf(s, idx, st),
        doc_bounded(c, st),
        counts_ok(c, st),
        idx < s.len(),
    ensures
        match doc_step(s, c, idx, st) {
            DocStep::Next(_, st2) => counts_ok(c, st2),
            DocStep::Stop(code, st2) => counts_after(c, code, st2),
        },
{
    if s[idx] != LT {
        let e = run_end(s, idx, Run::Until(LT));
        lemma_emit_counts(c, st, node_rec(1, idx, e - idx, 0, 0, 0, 0));
    } else if idx + 1 >= s.len() {
        lemma_emit_counts(c, st, node_rec(1, idx, 1, 0, 0, 0, 0));
    } else if s[idx + 1] == SLASH {
        let ns = run_end(s, idx + 2, Run::Blank);
        let e = run_end(s, ns, Run::Until(GT));
        let i = if e < s.len() {
            e + 1
        } else {
            e
        };
        if st.stack.len() != 0 {
            let h = st.stack.last() as int;
            assert(st.stack[st.stack.len() - 1] == st.stack.last());
            let open = st.nodes[h];
            let nodes = st.nodes.update(h, AsmNodeRecord { len: (i - open.start) as u32, ..open });
            assert forall|k: int| 0 <= k < st.nodes.len() implies #[trigger] nodes[k].parent
                == st.nodes[k].parent by {}
            lemma_same_parents(st.nodes, nodes);
            assert forall|k: int| 0 <= k < nodes.len() implies #[trigger] nodes[k].flags
                == child_count(nodes, k) by {
                assert(nodes[k].flags == st.nodes[k].flags);
                assert(st.nodes[k].flags == child_count(st.nodes, k));
            }
        }
    } else if s[idx + 1] == BANG {
        if idx + 3 < s.len() && s[idx + 2] == DASH && s[idx + 3] == DASH {
            let j = comment_scan(s, idx + 4);
            let end = if j + 2 < s.len() {
                j + 3
            } else {
                s.len() as int
            };
            lemma_emit_counts(c, st, node_rec(3, idx, end - idx, 0, 0, 0, 0));
        }
    } else {
        lemma_run_end(s, idx + 1, Run::Blank);
        let ns = run_end(s, idx + 1, Run::Blank);
        lemma_run_end(s, ns, Run::Ident);
        let ne = run_end(s, ns, Run::Ident);
        if ne != ns {
            lemma_attr_loop(s, c, ne, st, false);
            lemma_attr_loop_bounded(s, c, ne, st, false);
            match attr_loop(s, c, ne, st, false) {
                AttrLoop::Full(st2) => {},
                AttrLoop::Done(i, st2, sc) => {
                    let attr_start = st.attrs.len() as int;
                    let rec = node_rec(
                        2,
                        idx,
                        i - idx,
                        ns,
                        ne - ns,
                        attr_start,
                        st2.attrs.len() - attr_start,
                    );
                    assert(doc_bounded(c, st2));
                    assert(counts_ok(c, st2));
                    lemma_emit_counts(c, st2, rec);
                },
            }
        }
    }
}

/// The rest of a scan keeps the counts exact.
proof fn lemma_doc_run_counts(s: Seq<u8>, c: DocCaps, idx: int, st: DocState)
    requires
        doc_bounded(c, st),
        counts_ok(c, st),
    ensures
        counts_after(c, doc_run(s, c, idx, st).0, doc_run(s, c, idx, st).1),
    decreases s.len() - idx,
{
    if doc_wf(s, idx, st) && idx < s.len() {
        lemma_doc_step(s, c, idx, st);
        lemma_doc_step_bounded(s, c, idx, st);
        lemma_doc_step_counts(s, c, idx, st);
        match doc_step(s, c, idx, st) {
            DocStep::Next(i, st2) => {
                lemma_doc_run_counts(s, c, i, st2);
            },
            DocStep::Stop(_, _) => {},
        }
    }
}

/// The child counts and the top-level list of a scan are exact: each record's child count
/// (`flags`) is the number of records whose parent it is, the top-level count is the number
/// of records without a parent, and the recorded top-level list (where roots are recorded)
/// is exactly those records in index order. A scan stopped by a full root buffer (status
/// 3) has appended one last top-level record that is neither counted nor recorded.
pub proof fn lemma_scan_counts(s: Seq<u8>, c: DocCaps)
    requires
        c.nodes >= 0,
        c.attrs >= 0,
        c.roots >= 0,
        c.stack >= 0,
    ensures
        ({
            let (code, st) = document_scan(s, c);
            &&& forall|k: int|
                0 <= k < st.nodes.len() ==> #[trigger] st.nodes[k].flags == child_count(st.nodes, k)
            &&& code != 3 ==> st.roots_len == parentless(st.nodes).len() && (c.record_roots
                ==> st.roots == parentless(st.nodes))
            &&& code == 3 ==> st.nodes.len() > 0 && st.nodes.last().parent == u32::MAX
                && st.roots_len == parentless(st.nodes).len() - 1 && (c.record_roots ==> st.roots
                == parentless(st.nodes).drop_last())
        }),
{
    lemma_doc_run_counts(s, c, 0, empty_doc_state());
    lemma_scan_bounded(s, c);
    let (code, st) = document_scan(s, c);
    if code == 3 {
        let d = st.nodes.drop_last();
        let last = st.nodes.last();
        assert(st.nodes =~= d.push(last));
        lemma_push_counts(d, last);
        assert forall|k: int| 0 <= k < st.nodes.len() implies #[trigger] st.nodes[k].flags
            == child_count(st.nodes, k) by {
            if k < d.len() {
                assert(st.nodes[k] == d[k]);
                assert(d[k].flags == child_count(d, k));
            } else {
                assert forall|j: int| 0 <= j < d.len() implies #[trigger] d[j].parent != k by {
                    assert(d[j] == st.nodes[j]);
                    assert(parent_ok(st.nodes, j));
                }
                lemma_no_children(d, k);
            }
        }
    }
}

/// The shape of an attribute found by [`attr_at`]: there is one exactly where an
/// identifier byte stands; its name is the whole run of identifier bytes there; it has a
/// value exactly where `=` follows the name (blanks allowed between); a quoted value runs
/// up to the matching quote (or the end of input), an unquoted one up to a space, line
/// feed or `>` (or the end of input); without a value scanning resumes after the blanks.
pub proof fn lemma_attr_at_shape(s: Seq<u8>, idx: int)
    requires
        0 <= idx,
        s.len() <= usize::MAX,
    ensures
        attr_at(s, idx) is Some <==> (idx < s.len() && is_ident_spec(s[idx])),
        attr_at(s, idx) matches Some(a) ==> {
            let ne = a.name_start + a.name_len;
            let j = run_end(s, ne, Run::Blank);
            &&& a.name_start == idx
            &&& ne == run_end(s, idx, Run::Ident)
            &&& (a.has_value == 1) == (j < s.len() && s[j] == EQ)
            &&& a.has_value == 0 || a.has_value == 1
            &&& a.has_value == 0 ==> a.value_len == 0 && a.next_idx == j
            &&& a.has_value == 1 ==> {
                let vs = a.value_start as int;
                let ve = vs + a.value_len;
                &&& j < vs
                &&& a.next_idx == ve
                &&& if s[vs - 1] == DQUOTE || s[vs - 1] == SQUOTE {
                    &&& forall|k: int| vs <= k < ve ==> #[trigger] s[k] != s[vs - 1]
                    &&& (ve == s.len() || s[ve] == s[vs - 1])
                } else {
                    &&& forall|k: int|
                        vs <= k < ve ==> #[trigger] s[k] != SPACE && s[k] != LF && s[k] != GT
                    &&& (ve == s.len() || s[ve] == SPACE || s[ve] == LF || s[ve] == GT)
                }
            }
        },
{
    lemma_attr_at(s, idx);
    if 0 <= idx < s.len() {
        lemma_run_end(s, idx, Run::Ident);
        let ne = run_end(s, idx, Run::Ident);
        if ne != idx {
            lemma_run_end(s, ne, Run::Blank);
            let j = run_end(s, ne, Run::Blank);
            if j < s.len() && s[j] == EQ {
                lemma_run_end(s, j + 1, Run::Blank);
                let k = run_end(s, j + 1, Run::Blank);
                if k < s.len() {
                    if s[k] == DQUOTE || s[k] == SQUOTE {
                        lemma_run_end(s, k + 1, Run::Until(s[k]));
                    } else {
                        lemma_run_end(s, k, Run::Unquoted);
                        if k > j + 1 {
                            assert(in_run(Run::Blank, s[k - 1]));
                        }
                    }
                } else if k > j + 1 {
                    assert(in_run(Run::Blank, s[k - 1]));
                }
            }
        }
    }
}

/// The kind of record a scan step at `idx` emits: 1 for text (including a `<` that ends
/// the input), 3 for a comment, 2 for an opening tag, 0 for none (a closing tag or a
/// declaration).
pub open spec fn step_kind(s: Seq<u8>, idx: int) -> u32 {
    if s[idx] != LT || idx + 1 >= s.len() {
        1
    } else if s[idx + 1] == SLASH {
        0
    } else if s[idx + 1] == BANG {
        if idx + 3 < s.len() && s[idx + 2] == DASH && s[idx + 3] == DASH {
            3
        } else {
            0
        }
    } else {
        2
    }
}

/// Which record a step that goes on emits: none for a closing tag or a declaration, else
/// one record, appended last, of the step's kind, spanning exactly the bytes the step
/// read.
pub proof fn lemma_doc_step_record(s: Seq<u8>, c: DocCaps, idx: int, st: DocState)
    requires
        doc_wf(s, idx, st),
        idx < s.len(),
    ensures
        doc_step(s, c, idx, st) matches DocStep::Next(i, st2) ==> {
            &&& (st2.nodes.len() == st.nodes.len()) == (step_kind(s, idx) == 0)
            &&& step_kind(s, idx) != 0 ==> {
                let r = st2.nodes.last();
                &&& st2.nodes.len() == st.nodes.len() + 1
                &&& r.kind == step_kind(s, idx)
                &&& r.start == idx
                &&& r.start + r.len == i
            }
        },
{
    lemma_doc_step(s, c, idx, st);
    if let DocStep::Next(i, st2) = doc_step(s, c, idx, st) {
        let k = step_kind(s, idx);
        if k != 0 {
            let n = st.nodes.len() as int;
            assert(st2.nodes.len() == n + 1) by {
                if s[idx] == LT && idx + 1 < s.len() && s[idx + 1] != SLASH && s[idx + 1] != BANG {
                    let ns = run_end(s, idx + 1, Run::Blank);
                    let ne = run_end(s, ns, Run::Ident);
                    lemma_attr_loop(s, c, ne, st, false);
                }
            }
            let parent = if st.stack.len() == 0 {
                u32::MAX
            } else {
                st.stack.last()
            };
            if st.stack.len() != 0 {
                assert(stack_ok(s, idx, st.nodes, st.stack));
                assert(st.stack[st.stack.len() - 1] == st.stack.last());
            }
            assert(st2.nodes[n].kind == k && st2.nodes[n].start == idx && st2.nodes[n].start
                + st2.nodes[n].len == i) by {
                if s[idx] != LT {
                    lemma_run_end(s, idx, Run::Until(LT));
                } else if idx + 1 < s.len() && s[idx + 1] == BANG {
                    lemma_comment_scan(s, idx + 4);
                } else if idx + 1 < s.len() {
                    let ns = run_end(s, idx + 1, Run::Blank);
                    let ne = run_end(s, ns, Run::Ident);
                    lemma_attr_loop(s, c, ne, st, false);
                }
            }
        }
    }
}

/// A closing tag `</name>` at `idx` closes the innermost open tag exactly when `name` (the
/// bytes after blanks up to the next `>`) equals that tag's name: the tag then leaves the
/// stack and its length runs to just past the `>`, and nothing else changes. A closing tag
/// with another name, or with no tag open, changes nothing: the stack, the records and the
/// parents of later nodes stay as they were; only the position moves past it.
pub proof fn lemma_close_tag(s: Seq<u8>, c: DocCaps, idx: int, st: DocState)
    requires
        doc_wf(s, idx, st),
        idx + 1 < s.len(),
        s[idx] == LT,
        s[idx + 1] == SLASH,
    ensures
        ({
            let ns = run_end(s, idx + 2, Run::Blank);
            let e = run_end(s, ns, Run::Until(GT));
            let i = if e < s.len() {
                e + 1
            } else {
                e
            };
            let name = s.subrange(ns, e);
            let h = st.stack.last() as int;
            let open = st.nodes[h];
            let closes = st.stack.len() > 0 && s.subrange(
                open.name_start as int,
                open.name_start + open.name_len,
            ) == name;
            doc_step(s, c, idx, st) matches DocStep::Next(i2, st2) && i2 == i && if closes {
                &&& st2.stack == st.stack.drop_last()
                &&& st2.nodes.len() == st.nodes.len()
                &&& st2.nodes[h].len == i - open.start
                &&& st2.nodes[h].parent == open.parent
                &&& st2.nodes[h].flags == open.flags
                &&& forall|k: int| 0 <= k < st.nodes.len() && k != h ==> #[trigger] st2.nodes[k] == st.nodes[k]
                &&& st2.attrs == st.attrs && st2.roots == st.roots && st2.roots_len == st.roots_len
            } else {
                st2 == st
            }
        }),
{
    lemma_run_end(s, idx + 2, Run::Blank);
    let ns = run_end(s, idx + 2, Run::Blank);
    lemma_run_end(s, ns, Run::Until(GT));
    if st.stack.len() > 0 {
        assert(stack_ok(s, idx, st.nodes, st.stack));
        assert(st.stack[st.stack.len() - 1] == st.stack.last());
    }
}

/// The name of tag record `r` in the input.
pub open spec fn record_name(s: Seq<u8>, r: AsmNodeRecord) -> Seq<u8> {
    s.subrange(r.name_start as int, r.name_start + r.name_len)
}

/// No open tag, and no parent of a record, is named for a void element.
pub open spec fn voids_open_none(s: Seq<u8>, st: DocState) -> bool {
    &&& forall|k: int|
        0 <= k < st.stack.len() ==> !html_void_elements().contains(
            record_name(s, st.nodes[#[trigger] st.stack[k] as int]),
        )
    &&& forall|j: int|
        0 <= j < st.nodes.len() && #[trigger] st.nodes[j].parent != u32::MAX ==> !html_void_elements().contains(
            record_name(s, st.nodes[st.nodes[j].parent as int]),
        )
}

/// Emitting a node keeps void tags unopened: its parent is the innermost open tag.
proof fn lemma_emit_voids(s: Seq<u8>, c: DocCaps, st: DocState, rec: AsmNodeRecord)
    requires
        doc_bounded(c, st),
        voids_open_none(s, st),
        st.nodes.len() < u32::MAX,
    ensures
        voids_open_none(s, emit_spec(c, st, rec).1),
        emit_spec(c, st, rec).0 matches Ok(n) ==> st.nodes.len() == n && emit_spec(c, st, rec).1.nodes[n as int].name_start == rec.name_start && emit_spec(c, st, rec).1.nodes[n as int].name_len == rec.name_len,
{
    if st.nodes.len() < c.nodes {
        let idx = st.nodes.len() as int;
        let parent = if st.stack.len() == 0 {
            u32::MAX
        } else {
            st.stack.last()
        };
        if st.stack.len() != 0 {
            assert(st.stack[st.stack.len() - 1] == st.stack.last());
        }
        let r = AsmNodeRecord { flags: 0, parent, ..rec };
        let nodes = st.nodes.push(r);
        let st2 = emit_spec(c, st, rec).1;
        assert forall|k: int| 0 <= k < st2.nodes.len() implies #[trigger] st2.nodes[k].name_start
            == nodes[k].name_start && st2.nodes[k].name_len == nodes[k].name_len && st2.nodes[k].parent
            == nodes[k].parent by {}
        assert forall|k: int| 0 <= k < idx implies #[trigger] record_name(s, st2.nodes[k]) == record_name(s, st.nodes[k]) by {
            assert(nodes[k] == st.nodes[k]);
        }
        assert forall|k: int| 0 <= k < st2.stack.len() implies !html_void_elements().contains(
            record_name(s, st2.nodes[#[trigger] st2.stack[k] as int]),
        ) by {
            assert(record_name(s, st2.nodes[st.stack[k] as int]) == record_name(s, st.nodes[st.stack[k] as int]));
        }
        assert forall|j: int|
            0 <= j < st2.nodes.len() && #[trigger] st2.nodes[j].parent != u32::MAX implies !html_void_elements().contains(
            record_name(s, st2.nodes[st2.nodes[j].parent as int]),
        ) by {
            if j < idx {
                assert(nodes[j] == st.nodes[j]);
                assert(parent_ok(st.nodes, j));
                assert(record_name(s, st2.nodes[st.nodes[j].parent as int]) == record_name(s, st.nodes[st.nodes[j].parent as int]));
            } else {
                assert(record_name(s, st2.nodes[parent as int]) == record_name(s, st.nodes[parent as int]));
            }
        }
    }
}

/// Every step keeps void tags unopened.
proof fn lemma_doc_step_voids(s: Seq<u8>, c: DocCaps, idx: int, st: DocState)
    requires
        doc_wf(s, idx, st),
        doc_bounded(c, st),
        voids_open_none(s, st),
        idx < s.len(),
    ensures
        match doc_step(s, c, idx, st) {
            DocStep::Next(_, st2) => voids_open_none(s, st2),
            DocStep::Stop(_, st2) => voids_open_none(s, st2),
        },
{
    if s[idx] != LT {
        let e = run_end(s, idx, Run::Until(LT));
        lemma_emit_voids(s, c, st, node_rec(1, idx, e - idx, 0, 0, 0, 0));
    } else if idx + 1 >= s.len() {
        lemma_emit_voids(s, c, st, node_rec(1, idx, 1, 0, 0, 0, 0));
    } else if s[idx + 1] == SLASH {
        let ns = run_end(s, idx + 2, Run::Blank);
        let e = run_end(s, ns, Run::Until(GT));
        let i = if e < s.len() {
            e + 1
        } else {
            e
        };
        if st.stack.len() != 0 {
            let h = st.stack.last() as int;
            assert(st.stack[st.stack.len() - 1] == st.stack.last());
            let open = st.nodes[h];
            let nodes = st.nodes.update(h, AsmNodeRecord { len: (i - open.start) as u32, ..open });
            let stack2 = st.stack.drop_last();
            assert forall|k: int| 0 <= k < nodes.len() implies #[trigger] record_name(s, nodes[k])
                == record_name(s, st.nodes[k]) && nodes[k].parent == st.nodes[k].parent by {}
            assert forall|k: int| 0 <= k < stack2.len() implies !html_void_elements().contains(
                record_name(s, nodes[#[trigger] stack2[k] as int]),
            ) by {
                assert(stack2[k] == st.stack[k]);
                assert(record_name(s, nodes[st.stack[k] as int]) == record_name(s, st.nodes[st.stack[k] as int]));
            }
            assert forall|j: int|
                0 <= j < nodes.len() && #[trigger] nodes[j].parent != u32::MAX implies !html_void_elements().contains(
                record_name(s, nodes[nodes[j].parent as int]),
            ) by {
                assert(nodes[j].parent == st.nodes[j].parent);
                assert(st.nodes[j].parent != u32::MAX);
                assert(parent_ok(st.nodes, j));
                assert(record_name(s, nodes[st.nodes[j].parent as int]) == record_name(s, st.nodes[st.nodes[j].parent as int]));
            }
        }
    } else if s[idx + 1] == BANG {
        if idx + 3 < s.len() && s[idx + 2] == DASH && s[idx + 3] == DASH {
            let j = comment_scan(s, idx + 4);
            let end = if j + 2 < s.len() {
                j + 3
            } else {
                s.len() as int
            };
            lemma_emit_voids(s, c, st, node_rec(3, idx, end - idx, 0, 0, 0, 0));
        }
    } else {
        lemma_run_end(s, idx + 1, Run::Blank);
        let ns = run_end(s, idx + 1, Run::Blank);
        lemma_run_end(s, ns, Run::Ident);
        let ne = run_end(s, ns, Run::Ident);
        if ne != ns {
            lemma_attr_loop(s, c, ne, st, false);
            lemma_attr_loop_bounded(s, c, ne, st, false);
            match attr_loop(s, c, ne, st, false) {
                AttrLoop::Full(st2) => {},
                AttrLoop::Done(i, st2, sc) => {
                    let attr_start = st.attrs.len() as int;
                    let rec = node_rec(
                        2,
                        idx,
                        i - idx,
                        ns,
                        ne - ns,
                        attr_start,
                        st2.attrs.len() - attr_start,
                    );
                    assert(doc_bounded(c, st2));
                    assert(voids_open_none(s, st2));
                    lemma_emit_voids(s, c, st2, rec);
                    let (r, st3) = emit_spec(c, st2, rec);
                    if let Ok(node_idx) = r {
                        let name = s.subrange(ns, ne);
                        assert(record_name(s, st3.nodes[node_idx as int]) == name);
                        if !sc && !is_void_tag_name(name) {
                            if html_void_elements().contains(name) {
                                lemma_void_names(name);
                            }
                            let stack2 = st3.stack.push(node_idx);
                            assert forall|k: int| 0 <= k < stack2.len() implies !html_void_elements().contains(
                                record_name(s, st3.nodes[#[trigger] stack2[k] as int]),
                            ) by {
                                if k < st3.stack.len() {
                                    assert(stack2[k] == st3.stack[k]);
                                }
                            }
                        }
                    }
                },
            }
        }
    }
}

/// The rest of a scan keeps void tags unopened.
proof fn lemma_doc_run_voids(s: Seq<u8>, c: DocCaps, idx: int, st: DocState)
    requires
        doc_bounded(c, st),
        voids_open_none(s, st),
    ensures
        voids_open_none(s, doc_run(s, c, idx, st).1),
    decreases s.len() - idx,
{
    if doc_wf(s, idx, st) && idx < s.len() {
        lemma_doc_step(s, c, idx, st);
        lemma_doc_step_bounded(s, c, idx, st);
        lemma_doc_step_voids(s, c, idx, st);
        match doc_step(s, c, idx, st) {
            DocStep::Next(i, st2) => {
                lemma_doc_run_voids(s, c, i, st2);
            },
            DocStep::Stop(_, _) => {},
        }
    }
}

/// A tag named for an HTML void element is never opened by a scan: no record has it as its
/// parent (so its child count stays 0), and it is never on the stack of open tags.
pub proof fn lemma_scan_void(s: Seq<u8>, c: DocCaps)
    requires
        c.nodes >= 0,
        c.attrs >= 0,
        c.roots >= 0,
        c.stack >= 0,
    ensures
        voids_open_none(s, document_scan(s, c).1),
{
    lemma_doc_run_voids(s, c, 0, empty_doc_state());
}

} // verus!
