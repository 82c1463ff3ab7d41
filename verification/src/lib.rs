//! An HTML parser and query selector engine over byte slices.
#![allow(unused_imports)]

pub mod scan;
pub mod document;
pub mod bytemap;
pub mod errors;
pub mod stream;
pub mod parser;
pub mod queryselector;
pub mod simd;
pub mod util;
pub mod vdom;

use vstd::prelude::*;
use vstd::slice::slice_subrange;
use vstd::string::StringSliceAdditionalSpecFns;
use crate::document::{
    document_scan, rbtl_rust_msvc_parse_document, AsmBuffer, AsmParseOutput, DocCaps,
};
pub use crate::errors::ParseError;
pub use crate::parser::base::{HTMLVersion, Parser};
use crate::parser::base::sp_parse;
pub use crate::parser::options::ParserOptions;
pub use crate::parser::tag::{Attributes, HTMLTag, Node, NodeHandle};
use crate::queryselector::parser::sp_sel;
use crate::queryselector::selector::{Selector, SelectorV};
use crate::scan::{
    lemma_run_end, run_end, selector_kind, selector_kind_spec, simple_selector_kind,
    simple_selector_kind_spec, Run,
};
pub use crate::vdom::VDom;

verus! {

/// Parses `input` with `options`.
///
/// Spans are `u32`s throughout, so an input longer than `u32::MAX` bytes is refused with
/// [`ParseError::InvalidLength`].
pub fn parse(input: &str, options: ParserOptions) -> (r: Result<VDom<'_>, ParseError>)
    ensures
        match sp_parse(input.spec_bytes(), options.tracks_classes(), options.tracks_ids()) {
            Ok(p) => r matches Ok(d) && d.spec_parser()@ == p && d.spec_parser().input()
                == input.spec_bytes() && d.spec_parser().options == options,
            Err(e) => r == Err::<VDom<'_>, ParseError>(e),
        },
{
    let mut parser = Parser::new(input, options);
    match parser.parse() {
        Ok(()) => Ok(VDom::from(parser)),
        Err(e) => Err(e),
    }
}

/// The selector that a selector of simple kind `k` (see [`simple_selector_kind_spec`])
/// with a tag of length `t` stands for.
pub open spec fn simple_selector(s: Seq<u8>, k: u32, t: int) -> SelectorV {
    if k == 1 {
        SelectorV::All
    } else if k == 2 {
        SelectorV::Tag(s)
    } else if k == 3 {
        SelectorV::Id(s.subrange(1, s.len() as int))
    } else if k == 4 {
        SelectorV::Class(s.subrange(1, s.len() as int))
    } else if k == 5 {
        SelectorV::And(
            Box::new(SelectorV::Tag(s.subrange(0, t))),
            Box::new(SelectorV::Id(s.subrange(t + 1, s.len() as int))),
        )
    } else {
        SelectorV::And(
            Box::new(SelectorV::Tag(s.subrange(0, t))),
            Box::new(SelectorV::Class(s.subrange(t + 1, s.len() as int))),
        )
    }
}

/// A selector that the shortcut recognises (`*`, `tag`, `#id`, `.class`, `tag#id`,
/// `tag.class`) is the selector that the general parser reads from it.
pub proof fn lemma_simple_selector(s: Seq<u8>)
    requires
        simple_selector_kind_spec(s).0 != 0,
    ensures
        sp_sel(s, 0) == Some(
            (
                simple_selector(s, simple_selector_kind_spec(s).0, simple_selector_kind_spec(s).1),
                s.len() as int,
            ),
        ),
{
    let (k, t) = simple_selector_kind_spec(s);
    let n = s.len() as int;
    lemma_run_end(s, 0, Run::Ident);
    assert(run_end(s, 0, Run::Space) == 0);
    assert(run_end(s, n, Run::Space) == n);
    if k == 1 {
        assert(sp_sel(s, 0) == Some((SelectorV::All, n)));
    } else if k == 2 {
        assert(s.subrange(0, n) =~= s);
        assert(sp_sel(s, 0) == Some((SelectorV::Tag(s), n)));
    } else if k == 3 || k == 4 {
        assert(sp_sel(s, 0) == Some((simple_selector(s, k, t), n)));
    } else {
        let name = s.subrange(t + 1, n);
        assert(run_end(s, t, Run::Space) == t);
        let right = if k == 5 {
            SelectorV::Id(name)
        } else {
            SelectorV::Class(name)
        };
        assert(sp_sel(s, t) == Some((right, n)));
        assert(sp_sel(s, 0) == Some((simple_selector(s, k, t), n)));
    }
}

/// An input whose first non-space byte cannot start a selector (or that has none) holds
/// no selector.
pub proof fn lemma_no_selector(s: Seq<u8>)
    requires
        selector_kind_spec(s) == 0,
    ensures
        sp_sel(s, 0) is None,
{
}

/// Parses a query selector: the selector [`sp_sel`] reads from the whole input.
///
/// The common simple forms (`*`, `tag`, `#id`, `.class`, `tag#id`, `tag.class`) are
/// recognised without running the general parser; they give the same selector.
pub fn parse_query_selector(input: &str) -> (r: Option<Selector<'_>>)
    ensures
        match sp_sel(input.spec_bytes(), 0) {
            None => r is None,
            Some(x) => r matches Some(sel) && sel@ == x.0,
        },
{
    let bytes = input.as_bytes();
    let n = bytes.len();
    let (simple_kind, tag_len) = simple_selector_kind(bytes);
    proof {
        if simple_kind != 0 {
            lemma_simple_selector(bytes@);
            lemma_run_end(bytes@, 0, Run::Ident);
        }
    }
    if simple_kind == 1 {
        return Some(Selector::All);
    } else if simple_kind == 2 {
        return Some(Selector::Tag(bytes));
    } else if simple_kind == 3 {
        return Some(Selector::Id(slice_subrange(bytes, 1, n)));
    } else if simple_kind == 4 {
        return Some(Selector::Class(slice_subrange(bytes, 1, n)));
    } else if simple_kind == 5 {
        let tag = Selector::Tag(slice_subrange(bytes, 0, tag_len));
        let name = Selector::Id(slice_subrange(bytes, tag_len + 1, n));
        proof {
            assert(tag@ == SelectorV::Tag(bytes@.subrange(0, tag_len as int)));
            assert(name@ == SelectorV::Id(bytes@.subrange(tag_len + 1, n as int)));
        }
        return Some(Selector::And(Box::new(tag), Box::new(name)));
    } else if simple_kind == 6 {
        let tag = Selector::Tag(slice_subrange(bytes, 0, tag_len));
        let name = Selector::Class(slice_subrange(bytes, tag_len + 1, n));
        proof {
            assert(tag@ == SelectorV::Tag(bytes@.subrange(0, tag_len as int)));
            assert(name@ == SelectorV::Class(bytes@.subrange(tag_len + 1, n as int)));
        }
        return Some(Selector::And(Box::new(tag), Box::new(name)));
    }
    if selector_kind(bytes) == 0 {
        proof {
            lemma_no_selector(bytes@);
        }
        return None;
    }
    let mut p = crate::queryselector::parser::Parser::new(bytes);
    p.selector()
}

/// The bounds of [`__asm_scan_document_counts`]: 192 nodes, 128 attributes, 64 open
/// tags, and top-level nodes counted but not recorded.
pub open spec fn count_caps() -> DocCaps {
    DocCaps { nodes: 192, attrs: 128, roots: 0, record_roots: false, stack: 64 }
}

/// The error for a nonzero status of a document scan.
pub open spec fn scan_error(code: u32) -> ParseError {
    if code == 1 {
        ParseError::NodeCapacityExceeded
    } else if code == 2 {
        ParseError::AttributeCapacityExceeded
    } else if code == 3 {
        ParseError::RootCapacityExceeded
    } else if code == 4 {
        ParseError::StackCapacityExceeded
    } else {
        ParseError::UnsupportedAssemblySyntax
    }
}

/// Scans `input` with the bounded document scanner and returns how many nodes,
/// attributes and top-level nodes it produced, or the error for the status it ended with.
pub fn __asm_scan_document_counts(input: &str) -> (r: Result<(usize, usize, usize), ParseError>)
    ensures
        input.spec_bytes().len() > u32::MAX ==> r == Err::<(usize, usize, usize), ParseError>(
            ParseError::UnsupportedAssemblySyntax,
        ),
        input.spec_bytes().len() <= u32::MAX ==> {
            let (code, st) = document_scan(input.spec_bytes(), count_caps());
            if code == 0 {
                r matches Ok(t) && t.0 == st.nodes.len() && t.1 == st.attrs.len() && t.2
                    == st.roots_len
            } else {
                r == Err::<(usize, usize, usize), ParseError>(scan_error(code))
            }
        },
{
    let mut out = AsmParseOutput::from_raw_parts(
        AsmBuffer::new(192),
        AsmBuffer::new(128),
        AsmBuffer::absent(),
        AsmBuffer::new(64),
    );
    let code = rbtl_rust_msvc_parse_document(input.as_bytes(), &mut out);
    if code == 0 {
        Ok((out.nodes.len(), out.attrs.len(), out.roots_len))
    } else if code == 1 {
        Err(ParseError::NodeCapacityExceeded)
    } else if code == 2 {
        Err(ParseError::AttributeCapacityExceeded)
    } else if code == 3 {
        Err(ParseError::RootCapacityExceeded)
    } else if code == 4 {
        Err(ParseError::StackCapacityExceeded)
    } else {
        Err(ParseError::UnsupportedAssemblySyntax)
    }
}

} // verus!
