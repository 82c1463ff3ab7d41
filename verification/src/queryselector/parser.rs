//! The query selector parser.
use vstd::prelude::*;
use vstd::slice::slice_subrange;
use crate::queryselector::selector::{Selector, SelectorV};
use crate::scan::{
    count_ident, count_spaces, is_quote, lemma_run_end, lemma_run_end_shift, run_end,
    selector_attr_op_kind, selector_attr_op_kind_spec, selector_combinator_kind,
    selector_combinator_kind_spec, selector_token_kind, selector_token_kind_spec, Run, DQUOTE,
    EQ, SQUOTE, in_run, is_ident_spec, lemma_run_end_unique,
};
use crate::errors::ParseError;
use crate::stream::Stream;

verus! {

/// `]`
pub const RBRACKET: u8 = 93;

/// The attribute selector for operator `op` (see [`selector_attr_op_kind_spec`]).
pub open spec fn attr_selector(op: u32, attr: Seq<u8>, value: Seq<u8>) -> SelectorV {
    if op == 2 {
        SelectorV::AttributeValue(attr, value)
    } else if op == 3 {
        SelectorV::AttributeValueWhitespacedContains(attr, value)
    } else if op == 4 {
        SelectorV::AttributeValueStartsWith(attr, value)
    } else if op == 5 {
        SelectorV::AttributeValueEndsWith(attr, value)
    } else {
        SelectorV::AttributeValueSubstring(attr, value)
    }
}

/// The value of an attribute selector from `j`: identifier bytes, optionally between
/// quotes (the closing quote must match the opening one), then `]`.
pub open spec fn sp_attr_value(s: Seq<u8>, j: int, attr: Seq<u8>, op: u32) -> Option<
    (SelectorV, int),
> {
    let q = j < s.len() && (s[j] == DQUOTE || s[j] == SQUOTE);
    let vs = if q {
        j + 1
    } else {
        j
    };
    let ve = run_end(s, vs, Run::Ident);
    let value = s.subrange(vs, ve);
    let k = if q {
        if ve < s.len() && s[ve] == s[j] {
            Some(ve + 1)
        } else {
            None
        }
    } else {
        Some(ve)
    };
    match k {
        None => None,
        Some(k) => if k < s.len() && s[k] == RBRACKET {
            Some((attr_selector(op, attr, value), k + 1))
        } else {
            None
        },
    }
}

/// An attribute selector after its `[`: a name, then `]`, `=value]`, or one of `~ ^ $ *`
/// followed by `=value]`.
pub open spec fn sp_attr_sel(s: Seq<u8>, i: int) -> Option<(SelectorV, int)> {
    let e = run_end(s, i, Run::Ident);
    let attr = s.subrange(i, e);
    if e >= s.len() {
        None
    } else {
        let op = selector_attr_op_kind_spec(s[e]);
        if op == 1 {
            Some((SelectorV::Attribute(attr), e + 1))
        } else if op == 2 {
            sp_attr_value(s, e + 1, attr, op)
        } else if 3 <= op <= 6 {
            if e + 1 < s.len() && s[e + 1] == EQ {
                sp_attr_value(s, e + 2, attr, op)
            } else {
                None
            }
        } else {
            None
        }
    }
}

/// An attribute selector that is read ends after its start.
pub proof fn lemma_attr_sel(s: Seq<u8>, i: int)
    requires
        0 <= i <= s.len(),
    ensures
        sp_attr_sel(s, i) matches Some(r) ==> i < r.1 <= s.len(),
{
    lemma_run_end(s, i, Run::Ident);
    let e = run_end(s, i, Run::Ident);
    if e < s.len() {
        let op = selector_attr_op_kind_spec(s[e]);
        let j = if op == 2 {
            e + 1
        } else {
            e + 2
        };
        if j <= s.len() {
            let q = j < s.len() && (s[j] == DQUOTE || s[j] == SQUOTE);
            let vs = if q {
                j + 1
            } else {
                j
            };
            lemma_run_end(s, vs, Run::Ident);
        }
    }
}

/// A selector from `i`: spaces, then `#id`, `.class`, `*`, `[attribute...]` or `tag`,
/// then what combines it with the rest.
pub open spec fn sp_sel(s: Seq<u8>, i: int) -> Option<(SelectorV, int)>
    decreases s.len() - i, 0int,
{
    if i < 0 || i > s.len() {
        None
    } else {
        let i1 = run_end(s, i, Run::Space);
        proof {
            lemma_run_end(s, i, Run::Space);
        }
        if i1 >= s.len() {
            None
        } else {
            let k = selector_token_kind_spec(s[i1]);
            if k == 1 || k == 2 {
                proof {
                    lemma_run_end(s, i1 + 1, Run::Ident);
                }
                let e = run_end(s, i1 + 1, Run::Ident);
                let name = s.subrange(i1 + 1, e);
                sp_comb(
                    s,
                    e,
                    if k == 1 {
                        SelectorV::Id(name)
                    } else {
                        SelectorV::Class(name)
                    },
                )
            } else if k == 3 {
                sp_comb(s, i1 + 1, SelectorV::All)
            } else if k == 4 {
                match sp_attr_sel(s, i1 + 1) {
                    None => None,
                    Some(r) => {
                        proof {
                            lemma_attr_sel(s, i1 + 1);
                        }
                        sp_comb(s, r.1, r.0)
                    },
                }
            } else if k == 5 {
                proof {
                    lemma_run_end(s, i1, Run::Ident);
                }
                let e = run_end(s, i1, Run::Ident);
                sp_comb(s, e, SelectorV::Tag(s.subrange(i1, e)))
            } else {
                None
            }
        }
    }
}

/// What follows a selector `left` at `i`: the end of input, or `,` (or), `>` (parent),
/// spaces (descendant) or nothing (and) before another selector.
pub open spec fn sp_comb(s: Seq<u8>, i: int, left: SelectorV) -> Option<(SelectorV, int)>
    decreases s.len() - i, 1int,
{
    if i < 0 || i > s.len() {
        None
    } else {
        let i1 = run_end(s, i, Run::Space);
        proof {
            lemma_run_end(s, i, Run::Space);
        }
        if i1 >= s.len() {
            Some((left, i1))
        } else {
            let c = selector_combinator_kind_spec(s[i1], i1 != i);
            let next = if c == 1 || c == 2 {
                i1 + 1
            } else {
                i1
            };
            match sp_sel(s, next) {
                None => None,
                Some(r) => {
                    let l = Box::new(left);
                    let rt = Box::new(r.0);
                    Some(
                        (
                            if c == 1 {
                                SelectorV::Or(l, rt)
                            } else if c == 2 {
                                SelectorV::Parent(l, rt)
                            } else if c == 3 {
                                SelectorV::Descendant(l, rt)
                            } else {
                                SelectorV::And(l, rt)
                            },
                            r.1,
                        ),
                    )
                },
            }
        }
    }
}

/// A single selector from `i`, with no combinator: spaces, then `#id`, `.class`, `*`,
/// `[attribute...]` or `tag`; with the position just past it.
pub open spec fn sp_simple(s: Seq<u8>, i: int) -> Option<(SelectorV, int)> {
    if i < 0 || i > s.len() {
        None
    } else {
        let i1 = run_end(s, i, Run::Space);
        if i1 >= s.len() {
            None
        } else {
            let k = selector_token_kind_spec(s[i1]);
            if k == 1 || k == 2 {
                let e = run_end(s, i1 + 1, Run::Ident);
                let name = s.subrange(i1 + 1, e);
                Some(
                    (
                        if k == 1 {
                            SelectorV::Id(name)
                        } else {
                            SelectorV::Class(name)
                        },
                        e,
                    ),
                )
            } else if k == 3 {
                Some((SelectorV::All, i1 + 1))
            } else if k == 4 {
                sp_attr_sel(s, i1 + 1)
            } else if k == 5 {
                let e = run_end(s, i1, Run::Ident);
                Some((SelectorV::Tag(s.subrange(i1, e)), e))
            } else {
                None
            }
        }
    }
}

/// A selector is a single selector followed by what combines it with the rest.
pub proof fn lemma_sel_simple(s: Seq<u8>, i: int)
    ensures
        sp_sel(s, i) == match sp_simple(s, i) {
            None => None,
            Some(r) => sp_comb(s, r.1, r.0),
        },
{
}

/// What the allocation-free selector parser reads from `i`: one single selector followed
/// by nothing but spaces, and the end of input it stops at. Anything else (no selector,
/// or a combinator, which would need a node) is refused with
/// [`ParseError::SelectorCapacityExceeded`].
pub open spec fn sp_sel_bounded(s: Seq<u8>, i: int) -> Result<(SelectorV, int), ParseError> {
    match sp_simple(s, i) {
        None => Err(ParseError::SelectorCapacityExceeded),
        Some(r) => {
            let e = run_end(s, r.1, Run::Space);
            if e >= s.len() {
                Ok((r.0, e))
            } else {
                Err(ParseError::SelectorCapacityExceeded)
            }
        },
    }
}

/// A query selector parser
pub struct Parser<'a> {
    stream: Stream<'a>,
}

impl<'a> Parser<'a> {
    /// The selector text.
    pub closed spec fn input(&self) -> Seq<u8> {
        self.stream.data@
    }

    /// The position reached.
    pub closed spec fn pos(&self) -> int {
        self.stream.idx as int
    }

    /// Creates a new query selector parser
    pub fn new(input: &'a [u8]) -> (p: Self)
        ensures
            p.input() == input@,
            p.pos() == 0,
    {
        Parser { stream: Stream::new(input) }
    }

    /// Skips spaces; returns whether there were any.
    fn skip_whitespaces(&mut self) -> (b: bool)
        requires
            old(self).pos() <= old(self).input().len(),
        ensures
            final(self).pos() == run_end(old(self).input(), old(self).pos(), Run::Space),
            b == (final(self).pos() != old(self).pos()),
            final(self).input() == old(self).input(),
            final(self).input().len() <= usize::MAX,
    {
        let start = self.stream.idx;
        let data = self.stream.data();
        let rest = slice_subrange(data, start, data.len());
        let skipped = count_spaces(rest);
        proof {
            lemma_run_end_shift(data@, start as int, Run::Space);
            lemma_run_end(data@, start as int, Run::Space);
        }
        self.stream.idx = start + skipped;
        skipped != 0
    }

    /// Reads identifier bytes (possibly none).
    fn read_identifier(&mut self) -> (r: &'a [u8])
        requires
            old(self).pos() <= old(self).input().len(),
        ensures
            final(self).pos() == run_end(old(self).input(), old(self).pos(), Run::Ident),
            r@ == old(self).input().subrange(old(self).pos(), final(self).pos()),
            final(self).input() == old(self).input(),
            final(self).input().len() <= usize::MAX,
    {
        let start = self.stream.idx;
        let data = self.stream.data();
        let rest = slice_subrange(data, start, data.len());
        let len = count_ident(rest);
        proof {
            lemma_run_end_shift(data@, start as int, Run::Ident);
            lemma_run_end(data@, start as int, Run::Ident);
        }
        self.stream.advance_by(len);
        self.stream.slice(start, self.stream.idx)
    }

    /// Reads an attribute selector after its `[`, as [`sp_attr_sel`] describes it.
    fn parse_attribute(&mut self) -> (r: Option<Selector<'a>>)
        requires
            old(self).pos() <= old(self).input().len(),
        ensures
            final(self).input() == old(self).input(),
            match sp_attr_sel(old(self).input(), old(self).pos()) {
                None => r is None,
                Some(x) => r matches Some(sel) && sel@ == x.0 && final(self).pos() == x.1,
            },
    {
        let ghost s = self.input();
        let attribute = self.read_identifier();
        let op = match self.stream.current_cpy() {
            Some(c) => selector_attr_op_kind(c),
            None => {
                return None;
            },
        };
        if op == 1 {
            self.stream.advance();
            return Some(Selector::Attribute(attribute));
        }
        if op < 2 || op > 6 {
            return None;
        }
        self.stream.advance();
        if op != 2 {
            match self.stream.expect_and_skip(EQ) {
                Some(_) => {},
                None => {
                    return None;
                },
            }
        }
        let quote = match self.stream.current_cpy() {
            Some(c) => if is_quote(c) {
                Some(c)
            } else {
                None
            },
            None => None,
        };
        if quote.is_some() {
            self.stream.advance();
        }
        proof {
            lemma_run_end(s, self.stream.idx as int, Run::Ident);
        }
        let value = self.read_identifier();
        match quote {
            Some(q) => match self.stream.expect_and_skip(q) {
                Some(_) => {},
                None => {
                    return None;
                },
            },
            None => {},
        }
        match self.stream.expect_and_skip(RBRACKET) {
            Some(_) => {},
            None => {
                return None;
            },
        }
        let sel = if op == 2 {
            Selector::AttributeValue(attribute, value)
        } else if op == 3 {
            Selector::AttributeValueWhitespacedContains(attribute, value)
        } else if op == 4 {
            Selector::AttributeValueStartsWith(attribute, value)
        } else if op == 5 {
            Selector::AttributeValueEndsWith(attribute, value)
        } else {
            Selector::AttributeValueSubstring(attribute, value)
        };
        Some(sel)
    }

    /// Reads what follows selector `left`, as [`sp_comb`] describes it.
    fn parse_combinator(&mut self, left: Selector<'a>) -> (r: Option<Selector<'a>>)
        requires
            old(self).pos() <= old(self).input().len(),
        ensures
            final(self).input() == old(self).input(),
            match sp_comb(old(self).input(), old(self).pos(), left@) {
                None => r is None,
                Some(x) => r matches Some(sel) && sel@ == x.0 && final(self).pos() == x.1,
            },
        decreases old(self).input().len() - old(self).pos(), 1int,
    {
        let ghost s = self.input();
        let ghost i = self.pos();
        proof {
            lemma_run_end(s, i, Run::Space);
        }
        let has_whitespaces = self.skip_whitespaces();
        let tok = match self.stream.current_cpy() {
            Some(t) => t,
            None => {
                return Some(left);
            },
        };
        let c = selector_combinator_kind(tok, has_whitespaces);
        if c == 1 || c == 2 {
            self.stream.advance();
        }
        let right = match self.selector() {
            Some(r) => r,
            None => {
                return None;
            },
        };
        let l = Box::new(left);
        let rt = Box::new(right);
        if c == 1 {
            Some(Selector::Or(l, rt))
        } else if c == 2 {
            Some(Selector::Parent(l, rt))
        } else if c == 3 {
            Some(Selector::Descendant(l, rt))
        } else {
            Some(Selector::And(l, rt))
        }
    }

    /// Parses a full selector, as [`sp_sel`] describes it.
    pub fn selector(&mut self) -> (r: Option<Selector<'a>>)
        requires
            old(self).pos() <= old(self).input().len(),
        ensures
            final(self).input() == old(self).input(),
            match sp_sel(old(self).input(), old(self).pos()) {
                None => r is None,
                Some(x) => r matches Some(sel) && sel@ == x.0 && final(self).pos() == x.1,
            },
        decreases old(self).input().len() - old(self).pos(), 0int,
    {
        let ghost s = self.input();
        proof {
            lemma_run_end(s, self.pos(), Run::Space);
        }
        self.skip_whitespaces();
        let tok = match self.stream.current_cpy() {
            Some(t) => t,
            None => {
                return None;
            },
        };
        let k = selector_token_kind(tok);
        let left = if k == 1 || k == 2 {
            self.stream.advance();
            proof {
                lemma_run_end(s, self.pos(), Run::Ident);
            }
            let name = self.read_identifier();
            if k == 1 {
                Selector::Id(name)
            } else {
                Selector::Class(name)
            }
        } else if k == 3 {
            self.stream.advance();
            Selector::All
        } else if k == 4 {
            self.stream.advance();
            proof {
                lemma_attr_sel(s, self.pos());
            }
            match self.parse_attribute() {
                Some(a) => a,
                None => {
                    return None;
                },
            }
        } else if k == 5 {
            proof {
                lemma_run_end(s, self.pos(), Run::Ident);
            }
            let tag = self.read_identifier();
            Selector::Tag(tag)
        } else {
            return None;
        };
        self.parse_combinator(left)
    }

    /// Reads a single selector, as [`sp_simple`] describes it.
    fn read_simple(&mut self) -> (r: Option<Selector<'a>>)
        requires
            old(self).pos() <= old(self).input().len(),
        ensures
            final(self).input() == old(self).input(),
            r is Some ==> final(self).pos() <= final(self).input().len(),
            match sp_simple(old(self).input(), old(self).pos()) {
                None => r is None,
                Some(x) => r matches Some(sel) && sel@ == x.0 && final(self).pos() == x.1,
            },
    {
        let ghost s = self.input();
        proof {
            lemma_run_end(s, self.pos(), Run::Space);
        }
        self.skip_whitespaces();
        let tok = match self.stream.current_cpy() {
            Some(t) => t,
            None => {
                return None;
            },
        };
        let k = selector_token_kind(tok);
        if k == 1 || k == 2 {
            self.stream.advance();
            proof {
                lemma_run_end(s, self.pos(), Run::Ident);
            }
            let name = self.read_identifier();
            if k == 1 {
                Some(Selector::Id(name))
            } else {
                Some(Selector::Class(name))
            }
        } else if k == 3 {
            self.stream.advance();
            Some(Selector::All)
        } else if k == 4 {
            self.stream.advance();
            proof {
                lemma_attr_sel(s, self.pos());
            }
            self.parse_attribute()
        } else if k == 5 {
            proof {
                lemma_run_end(s, self.pos(), Run::Ident);
            }
            let tag = self.read_identifier();
            Some(Selector::Tag(tag))
        } else {
            None
        }
    }

    /// Parses a selector without building combinator nodes, as [`sp_sel_bounded`]
    /// describes it: a single selector followed by nothing but spaces is accepted, anything
    /// else is refused with [`ParseError::SelectorCapacityExceeded`].
    pub fn selector_bounded(&mut self) -> (r: Result<Selector<'a>, ParseError>)
        requires
            old(self).pos() <= old(self).input().len(),
        ensures
            final(self).input() == old(self).input(),
            match sp_sel_bounded(old(self).input(), old(self).pos()) {
                Err(e) => r == Err::<Selector<'a>, ParseError>(e),
                Ok(x) => r matches Ok(sel) && sel@ == x.0 && final(self).pos() == x.1,
            },
    {
        let ghost s = self.input();
        let left = match self.read_simple() {
            Some(l) => l,
            None => {
                return Err(ParseError::SelectorCapacityExceeded);
            },
        };
        proof {
            lemma_run_end(s, self.pos(), Run::Space);
        }
        self.skip_whitespaces();
        match self.stream.current_cpy() {
            None => Ok(left),
            Some(_) => Err(ParseError::SelectorCapacityExceeded),
        }
    }
}

} // verus!

verus! {

/// An attribute selector whose value is enclosed in quotes, single or double, reads as the
/// attribute name and the value between the quotes, and the whole input is read:
/// `[name="value"]` and `[name='value']` both give `AttributeValue(name, value)`.
pub proof fn lemma_quoted_attribute_selector(name: Seq<u8>, value: Seq<u8>, q: u8)
    requires
        q == DQUOTE || q == SQUOTE,
        forall|k: int| 0 <= k < name.len() ==> is_ident_spec(#[trigger] name[k]),
        forall|k: int| 0 <= k < value.len() ==> is_ident_spec(#[trigger] value[k]),
    ensures
        ({
            let s = seq![91u8] + name + seq![EQ, q] + value + seq![q, RBRACKET];
            sp_sel(s, 0) == Some((SelectorV::AttributeValue(name, value), s.len() as int))
        }),
{
    let s = seq![91u8] + name + seq![EQ, q] + value + seq![q, RBRACKET];
    let n = name.len() as int;
    let m = value.len() as int;
    assert(s.len() == 5 + n + m);
    assert(s[0] == 91u8);
    assert(s[1 + n] == EQ);
    assert(s[2 + n] == q);
    assert(s[3 + n + m] == q);
    assert(s[4 + n + m] == RBRACKET);
    assert forall|k: int| 1 <= k < 1 + n implies in_run(Run::Ident, #[trigger] s[k]) by {
        assert(s[k] == name[k - 1]);
    }
    assert forall|k: int| 3 + n <= k < 3 + n + m implies in_run(Run::Ident, #[trigger] s[k]) by {
        assert(s[k] == value[k - 3 - n]);
    }
    lemma_run_end_unique(s, 1, Run::Ident, 1 + n);
    lemma_run_end_unique(s, 3 + n, Run::Ident, 3 + n + m);
    assert(s.subrange(1, 1 + n) =~= name);
    assert(s.subrange(3 + n, 3 + n + m) =~= value);
    assert(run_end(s, 0, Run::Space) == 0);
    assert(run_end(s, s.len() as int, Run::Space) == s.len());
    assert(sp_attr_sel(s, 1) == Some((SelectorV::AttributeValue(name, value), s.len() as int)));
}

} // verus!
