use asm_tl::bytemap::BytesMap;
use asm_tl::parser::options::ParserOptions;
use asm_tl::parser::tag::{Node, NodeHandle};
use asm_tl::Parser;
use asm_tl::stream::Stream;

#[test]
fn bytes_map_insert_and_get() {
    let mut m: BytesMap<u32> = BytesMap::new();
    assert_eq!(m.len(), 0);
    assert_eq!(m.insert(b"a", 1), None);
    assert_eq!(m.insert(b"b", 2), None);
    assert_eq!(m.insert(b"a", 3), Some(1));
    assert_eq!(m.len(), 2);
    assert_eq!(m.get(b"a"), Some(&3));
    assert_eq!(m.get(b"c"), None);
    assert_eq!(m.position(b"b"), Some(1));
    *m.get_mut(b"b").unwrap() = 7;
    assert_eq!(m.get(b"b"), Some(&7));
    assert!(m.get_mut(b"z").is_none());
}

#[test]
fn stream_cursor() {
    let mut s = Stream::new(b"ab]");
    assert_eq!(s.len(), 3);
    assert_eq!(s.current_cpy(), Some(b'a'));
    assert_eq!(s.expect_and_skip(b'x'), None);
    assert_eq!(s.expect_and_skip(b'a'), Some(b'a'));
    s.advance();
    assert_eq!(s.idx, 2);
    assert_eq!(s.slice(0, 2), b"ab");
    assert_eq!(s.slice_len(1, 10), b"b]");
    s.advance_by(1);
    assert!(s.is_eof());
    assert_eq!(s.current_cpy(), None);
    assert_eq!(s.data(), b"ab]");
}

#[test]
fn handles_and_mutation() {
    let h = NodeHandle::new(3);
    assert_eq!(h.get_inner(), 3);
    let mut parser = Parser::new("<p>x</p>", ParserOptions::default());
    assert_eq!(parser.parse(), Ok(()));
    match parser.resolve_node_id_mut(1) {
        Some(Node::Raw(t)) => *t = b"y",
        _ => unreachable!(),
    }
    assert_eq!(parser.resolve_node_id(1).unwrap().as_raw(), Some(&b"y"[..]));
    assert!(parser.resolve_node_id_mut(5).is_none());
}
