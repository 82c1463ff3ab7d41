use asm_tl::errors::ParseError;
use asm_tl::parser::options::ParserOptions;
use asm_tl::parser::tag::{Node, NodeHandle};
use asm_tl::{parse, parse_query_selector};

#[test]
fn readme_get_element_by_id() {
    let dom = parse("<div id=\"app\">Hello</div>", ParserOptions::default()).unwrap();
    let parser = dom.parser();
    let handle = dom.get_element_by_id("app").unwrap();
    assert_eq!(handle, NodeHandle(0));
    let app = handle.get(parser).unwrap().as_tag().unwrap();
    assert_eq!(app.name(), b"div");
    assert_eq!(app.children(), &[NodeHandle(1)]);
    let text = app.children()[0].get(parser).unwrap().as_raw().unwrap();
    assert_eq!(text, b"Hello");
    assert_eq!(app.raw(), b"<div id=\"app\">Hello</div>");
    assert_eq!(app.inner_text(parser), b"Hello".to_vec());
    assert_eq!(handle.get(parser).unwrap().inner_text(parser), b"Hello".to_vec());
}

#[test]
fn inner_text_of_nested_nodes() {
    let dom = parse("<p>a<b>c</b><!--x-->d</p>e", ParserOptions::default()).unwrap();
    let parser = dom.parser();
    let nodes = dom.nodes();
    assert_eq!(nodes[0].inner_text(parser), b"acd".to_vec());
    assert_eq!(nodes[2].inner_text(parser), b"c".to_vec());
    assert_eq!(nodes[4].inner_text(parser), Vec::<u8>::new());
    assert_eq!(nodes[6].inner_text(parser), b"e".to_vec());
}

#[test]
fn readme_get_element_by_id_tracked() {
    let options = ParserOptions::default().track_ids().track_classes();
    let dom = parse("<div id=\"app\">Hello</div>", options).unwrap();
    assert_eq!(dom.get_element_by_id("app"), Some(NodeHandle(0)));
    assert_eq!(dom.get_element_by_id("nope"), None);
}

#[test]
fn parse_doc_example_query_selector() {
    let dom = parse("<div>Hello, world!</div>", ParserOptions::default()).unwrap();
    assert_eq!(dom.query_selector("div").unwrap().len(), 1);
}

#[test]
fn query_selector_in_document_order() {
    let dom = parse(
        "<ul><li class=\"a b\">1</li><li class=\"b\">2</li><p class=\"a\">3</p></ul>",
        ParserOptions::default(),
    )
    .unwrap();
    assert_eq!(dom.query_selector(".a").unwrap(), vec![NodeHandle(1), NodeHandle(5)]);
    assert_eq!(dom.query_selector("li.b").unwrap(), vec![NodeHandle(1), NodeHandle(3)]);
    assert_eq!(
        dom.query_selector("li, p").unwrap(),
        vec![NodeHandle(1), NodeHandle(3), NodeHandle(5)]
    );
    assert_eq!(dom.query_selector("*").unwrap().len(), dom.nodes().len());
    assert!(dom.query_selector("").is_none());
    assert!(dom.query_selector("!").is_none());
}

#[test]
fn nodes_and_children() {
    let dom = parse("a<br>b<p>c</p><!-- x -->", ParserOptions::default()).unwrap();
    let nodes = dom.nodes();
    assert_eq!(nodes.len(), 6);
    assert_eq!(nodes[0].as_raw(), Some(&b"a"[..]));
    assert_eq!(nodes[1].as_tag().unwrap().name(), b"br");
    assert_eq!(nodes[2].as_raw(), Some(&b"b"[..]));
    assert_eq!(nodes[3].as_tag().unwrap().children(), &[NodeHandle(4)]);
    assert_eq!(nodes[5].as_comment(), Some(&b"<!-- x -->"[..]));
    assert_eq!(
        dom.children(),
        &[NodeHandle(0), NodeHandle(1), NodeHandle(2), NodeHandle(3), NodeHandle(5)]
    );
}

#[test]
fn doctype_sets_version() {
    let dom = parse("<!DOCTYPE html><p></p>", ParserOptions::default()).unwrap();
    assert!(dom.version().is_some());
    let dom = parse("<p></p>", ParserOptions::default()).unwrap();
    assert!(dom.version().is_none());
}

#[test]
fn unsupported_declaration_is_an_error() {
    assert!(matches!(
        parse("<!foo>", ParserOptions::default()),
        Err(ParseError::UnsupportedAssemblySyntax)
    ));
}

#[test]
fn attributes_are_read() {
    let dom = parse("<a href='x' data-k=v checked>t</a>", ParserOptions::default()).unwrap();
    let tag = dom.nodes()[0].as_tag().unwrap();
    let attrs = tag.attributes();
    assert_eq!(attrs.get(b"href"), Some(Some(&b"x"[..])));
    assert_eq!(attrs.get(b"data-k"), Some(Some(&b"v"[..])));
    assert_eq!(attrs.get(b"checked"), Some(None));
    assert_eq!(attrs.get(b"id"), None);
}

#[test]
fn resolve_node_id_bounds() {
    let dom = parse("<p>x</p>", ParserOptions::default()).unwrap();
    let parser = dom.parser();
    assert!(parser.resolve_node_id(1).is_some());
    assert!(parser.resolve_node_id(2).is_none());
    assert!(NodeHandle(7).get(parser).is_none());
}

#[test]
fn unclosed_and_mismatched_tags() {
    let dom = parse("<div><span>x</div>", ParserOptions::default()).unwrap();
    let nodes = dom.nodes();
    assert_eq!(nodes.len(), 3);
    assert_eq!(nodes[1].as_tag().unwrap().children(), &[NodeHandle(2)]);
    assert_eq!(dom.children(), &[NodeHandle(0)]);
}

#[test]
fn selector_fast_path_matches_general_parser() {
    let s = parse_query_selector("div#test");
    match s {
        Some(asm_tl::queryselector::Selector::And(left, right)) => {
            assert!(matches!(&*left, asm_tl::queryselector::Selector::Tag(b"div")));
            assert!(matches!(&*right, asm_tl::queryselector::Selector::Id(b"test")));
        }
        _ => unreachable!(),
    }
}

#[test]
fn tracked_tables_name_matching_tags() {
    let options = ParserOptions::default().track_ids().track_classes();
    let dom = parse("<p class=\"a b\" id=x></p><i class=\"b\"></i><u id=x></u>", options).unwrap();
    let parser = dom.parser();
    assert_eq!(parser.classes.get(b"b"), Some(&vec![NodeHandle(0), NodeHandle(1)]));
    assert_eq!(parser.classes.get(b"a"), Some(&vec![NodeHandle(0)]));
    assert_eq!(parser.classes.get(b"c"), None);
    assert_eq!(parser.ids.get(b"x"), Some(&NodeHandle(2)));
    assert_eq!(dom.get_element_by_id("x"), Some(NodeHandle(2)));
    let untracked = parse("<p class=\"a b\" id=x></p><i class=\"b\"></i><u id=x></u>", ParserOptions::default()).unwrap();
    assert_eq!(untracked.get_element_by_id("x"), Some(NodeHandle(0)));
    assert_eq!(untracked.parser().ids.len(), 0);
    assert_eq!(untracked.parser().classes.len(), 0);
}

#[test]
fn unclosed_tag_is_not_in_the_id_table() {
    let dom = parse("<div id=a>", ParserOptions::default().track_ids()).unwrap();
    assert_eq!(dom.get_element_by_id("a"), None);
    let dom = parse("<div id=a>", ParserOptions::default()).unwrap();
    assert_eq!(dom.get_element_by_id("a"), Some(NodeHandle(0)));
}

#[test]
fn elements_by_class_name() {
    let html = "<p class=\"a b\"></p><i class=\"b\"><b class=\"bb\"></b></i><u class=\"b\">";
    let dom = parse(html, ParserOptions::default()).unwrap();
    assert_eq!(
        dom.get_elements_by_class_name("b"),
        vec![NodeHandle(0), NodeHandle(1), NodeHandle(3)]
    );
    assert_eq!(dom.get_elements_by_class_name("c"), vec![]);
    let with_table = parse(html, ParserOptions::default().track_classes()).unwrap();
    assert_eq!(with_table.get_elements_by_class_name("b"), vec![NodeHandle(0), NodeHandle(1)]);
    assert_eq!(with_table.get_elements_by_class_name("bb"), vec![NodeHandle(2)]);
    assert_eq!(with_table.get_elements_by_class_name("c"), vec![]);
}
