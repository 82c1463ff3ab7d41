use asm_tl::__asm_scan_document_counts;
use asm_tl::document::{
    rbtl_rust_msvc_parse_attr, rbtl_rust_msvc_parse_document, AsmAttr, AsmBuffer, AsmParseOutput,
};
use asm_tl::errors::ParseError;

#[test]
fn counts_of_small_documents() {
    assert_eq!(__asm_scan_document_counts("<div><p>a</p></div>"), Ok((3, 0, 1)));
    assert_eq!(__asm_scan_document_counts("<a href=\"x\" id=y>t</a>"), Ok((2, 2, 1)));
    assert_eq!(__asm_scan_document_counts("text<br>more"), Ok((3, 0, 3)));
    assert_eq!(__asm_scan_document_counts("<!DOCTYPE html><p></p>"), Ok((1, 0, 1)));
    assert_eq!(__asm_scan_document_counts("<!-- c --><p>"), Ok((2, 0, 2)));
    assert_eq!(__asm_scan_document_counts(""), Ok((0, 0, 0)));
}

#[test]
fn counts_errors() {
    assert_eq!(__asm_scan_document_counts("<!foo>"), Err(ParseError::UnsupportedAssemblySyntax));
    let many = "<br>".repeat(193);
    assert_eq!(__asm_scan_document_counts(&many), Err(ParseError::NodeCapacityExceeded));
    let fits = "<br>".repeat(192);
    assert_eq!(__asm_scan_document_counts(&fits), Ok((192, 0, 192)));
    let deep = "<div>".repeat(65);
    assert_eq!(__asm_scan_document_counts(&deep), Err(ParseError::StackCapacityExceeded));
    let deep_ok = "<div>".repeat(64);
    assert_eq!(__asm_scan_document_counts(&deep_ok), Ok((64, 0, 1)));
    let attrs = format!("<a{}>", " x".repeat(129));
    assert_eq!(__asm_scan_document_counts(&attrs), Err(ParseError::AttributeCapacityExceeded));
}

fn blank() -> AsmAttr {
    AsmAttr { name_start: 0, name_len: 0, value_start: 0, value_len: 0, next_idx: 0, has_value: 0 }
}

#[test]
fn attribute_records() {
    let mut out = blank();
    assert_eq!(rbtl_rust_msvc_parse_attr(b"<a href=\"x\">", 3, &mut out), 1);
    assert_eq!(
        out,
        AsmAttr { name_start: 3, name_len: 4, value_start: 9, value_len: 1, next_idx: 10, has_value: 1 }
    );
    let mut out = blank();
    assert_eq!(rbtl_rust_msvc_parse_attr(b"<a x = y>", 3, &mut out), 1);
    assert_eq!(
        out,
        AsmAttr { name_start: 3, name_len: 1, value_start: 7, value_len: 1, next_idx: 8, has_value: 1 }
    );
    let mut out = blank();
    assert_eq!(rbtl_rust_msvc_parse_attr(b"<a checked>", 3, &mut out), 1);
    assert_eq!(
        out,
        AsmAttr { name_start: 3, name_len: 7, value_start: 10, value_len: 0, next_idx: 10, has_value: 0 }
    );
    let mut out = blank();
    assert_eq!(rbtl_rust_msvc_parse_attr(b"<a >", 3, &mut out), 0);
    assert_eq!(out, blank());
}

#[test]
fn root_buffer_runs_out() {
    let mut out = AsmParseOutput::from_raw_parts(
        AsmBuffer::new(8),
        AsmBuffer::new(8),
        AsmBuffer::new(1),
        AsmBuffer::new(8),
    );
    assert_eq!(rbtl_rust_msvc_parse_document(b"<a></a><b></b>", &mut out), 3);
    assert_eq!(out.error, 3);
    assert_eq!(out.nodes.len(), 2);
    assert_eq!(out.roots, vec![0u32]);
    assert_eq!(out.roots_len, 1);
    assert_eq!(out.nodes[0].kind, 2);
    assert_eq!(out.nodes[0].len, 7);
    assert_eq!(out.nodes[1].parent, u32::MAX);
}

#[test]
fn records_of_a_document() {
    let mut out = AsmParseOutput::from_raw_parts(
        AsmBuffer::new(8),
        AsmBuffer::new(8),
        AsmBuffer::new(8),
        AsmBuffer::new(8),
    );
    let input = b"<!doctype HTML><p class=x>hi<br></p>";
    assert_eq!(rbtl_rust_msvc_parse_document(input, &mut out), 0);
    assert_eq!(out.version, 1);
    assert_eq!(out.nodes.len(), 3);
    assert_eq!(out.roots, vec![0u32]);
    assert_eq!(out.roots_len, 1);
    assert_eq!(out.stack_len, 0);
    let p = out.nodes[0];
    assert_eq!((p.kind, p.parent, p.flags, p.attr_start, p.attr_count), (2, u32::MAX, 2, 0, 1));
    assert_eq!((p.start, p.len, p.name_start, p.name_len), (15, 21, 16, 1));
    assert_eq!((out.nodes[1].kind, out.nodes[1].parent, out.nodes[1].start, out.nodes[1].len), (1, 0, 26, 2));
    assert_eq!((out.nodes[2].kind, out.nodes[2].parent), (2, 0));
    let a = out.attrs[0];
    assert_eq!((a.name_start, a.name_len, a.value_start, a.value_len, a.has_value, a.key_kind), (18, 5, 24, 1, 1, 2));
}

#[test]
fn child_counts_and_roots_are_exact() {
    let mut out = AsmParseOutput::from_raw_parts(
        AsmBuffer::new(16),
        AsmBuffer::new(8),
        AsmBuffer::new(8),
        AsmBuffer::new(8),
    );
    let input = b"x<ul><li>a</li><li><b>c</b></li>y</ul><!--z--><p>";
    assert_eq!(rbtl_rust_msvc_parse_document(input, &mut out), 0);
    let flags: Vec<u32> = out.nodes.iter().map(|n| n.flags).collect();
    let parents: Vec<u32> = out.nodes.iter().map(|n| n.parent).collect();
    let m = u32::MAX;
    assert_eq!(parents, vec![m, m, 1, 2, 1, 4, 5, 1, m, m]);
    assert_eq!(flags, vec![0, 3, 1, 0, 1, 1, 0, 0, 0, 0]);
    assert_eq!(out.roots, vec![0u32, 1, 8, 9]);
    assert_eq!(out.roots_len, 4);
}
