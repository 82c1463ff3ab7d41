use asm_tl::parse_query_selector;
use asm_tl::parser::options::ParserOptions;
use asm_tl::queryselector::parser::Parser;
use asm_tl::queryselector::Selector;

#[test]
fn simple_forms() {
    assert!(matches!(parse_query_selector("*"), Some(Selector::All)));
    assert!(matches!(parse_query_selector("p"), Some(Selector::Tag(b"p"))));
    assert!(matches!(parse_query_selector("#x"), Some(Selector::Id(b"x"))));
    assert!(matches!(parse_query_selector(".y"), Some(Selector::Class(b"y"))));
    match parse_query_selector("a.b") {
        Some(Selector::And(l, r)) => {
            assert!(matches!(&*l, Selector::Tag(b"a")));
            assert!(matches!(&*r, Selector::Class(b"b")));
        }
        _ => unreachable!(),
    }
}

#[test]
fn general_forms() {
    match parse_query_selector(" a > b") {
        Some(Selector::Parent(l, r)) => {
            assert!(matches!(&*l, Selector::Tag(b"a")));
            assert!(matches!(&*r, Selector::Tag(b"b")));
        }
        _ => unreachable!(),
    }
    match parse_query_selector("a b") {
        Some(Selector::Descendant(l, r)) => {
            assert!(matches!(&*l, Selector::Tag(b"a")));
            assert!(matches!(&*r, Selector::Tag(b"b")));
        }
        _ => unreachable!(),
    }
    match parse_query_selector("a, .c") {
        Some(Selector::Or(l, r)) => {
            assert!(matches!(&*l, Selector::Tag(b"a")));
            assert!(matches!(&*r, Selector::Class(b"c")));
        }
        _ => unreachable!(),
    }
}

#[test]
fn attribute_forms() {
    assert!(matches!(parse_query_selector("[href]"), Some(Selector::Attribute(b"href"))));
    assert!(matches!(
        parse_query_selector("[a=b]"),
        Some(Selector::AttributeValue(b"a", b"b"))
    ));
    assert!(matches!(
        parse_query_selector("[a=\"b\"]"),
        Some(Selector::AttributeValue(b"a", b"b"))
    ));
    assert!(matches!(
        parse_query_selector("[a~=b]"),
        Some(Selector::AttributeValueWhitespacedContains(b"a", b"b"))
    ));
    assert!(matches!(
        parse_query_selector("[a^=b]"),
        Some(Selector::AttributeValueStartsWith(b"a", b"b"))
    ));
    assert!(matches!(
        parse_query_selector("[a$=b]"),
        Some(Selector::AttributeValueEndsWith(b"a", b"b"))
    ));
    assert!(matches!(
        parse_query_selector("[a*=b]"),
        Some(Selector::AttributeValueSubstring(b"a", b"b"))
    ));
    assert!(parse_query_selector("[a=\"b']").is_none());
    assert!(parse_query_selector("[a").is_none());
}

#[test]
fn rejected_selectors() {
    assert!(parse_query_selector("").is_none());
    assert!(parse_query_selector("   ").is_none());
    assert!(parse_query_selector("a >").is_none());
    assert!(parse_query_selector("!a").is_none());
}

#[test]
fn parser_new_and_selector() {
    let mut p = Parser::new(b"div > p");
    assert!(matches!(p.selector(), Some(Selector::Parent(_, _))));
}

#[test]
fn matches_nodes() {
    let dom = asm_tl::parse(
        "<a id=\"i\" class=\"x y\" href=\"http://e.org/p\" rel=\"a b c\">t</a>",
        ParserOptions::default(),
    )
    .unwrap();
    let node = &dom.nodes()[0];
    let text = &dom.nodes()[1];
    let yes = [
        "a", "#i", ".x", ".y", "a.x", "*", "[href]", "[rel~=b]", "[href^=http]", "[href$=p]",
        "[href*=e]", "b, a", "a#i",
    ];
    for s in yes {
        assert!(parse_query_selector(s).unwrap().matches(node), "{}", s);
    }
    let no = ["b", "#j", ".z", "[id2]", "[rel~=d]", "[href^=p]", "a b", "a > a"];
    for s in no {
        assert!(!parse_query_selector(s).unwrap().matches(node), "{}", s);
    }
    assert!(parse_query_selector("*").unwrap().matches(text));
    assert!(!parse_query_selector("a").unwrap().matches(text));
}

fn b(x: &[u8]) -> String {
    String::from_utf8(x.to_vec()).unwrap()
}

fn render(s: &Selector) -> String {
    match s {
        Selector::Tag(t) => format!("tag({})", b(t)),
        Selector::Id(t) => format!("id({})", b(t)),
        Selector::Class(t) => format!("class({})", b(t)),
        Selector::All => "all".to_string(),
        Selector::And(l, r) => format!("and({},{})", render(l), render(r)),
        Selector::Or(l, r) => format!("or({},{})", render(l), render(r)),
        Selector::Descendant(l, r) => format!("desc({},{})", render(l), render(r)),
        Selector::Parent(l, r) => format!("parent({},{})", render(l), render(r)),
        Selector::Attribute(a) => format!("attr({})", b(a)),
        Selector::AttributeValue(a, v) => format!("eq({},{})", b(a), b(v)),
        Selector::AttributeValueWhitespacedContains(a, v) => format!("word({},{})", b(a), b(v)),
        Selector::AttributeValueStartsWith(a, v) => format!("prefix({},{})", b(a), b(v)),
        Selector::AttributeValueEndsWith(a, v) => format!("suffix({},{})", b(a), b(v)),
        Selector::AttributeValueSubstring(a, v) => format!("sub({},{})", b(a), b(v)),
    }
}

#[test]
fn shortcut_agrees_with_general_parser() {
    for s in ["*", "div", "#x", ".y", "div#x", "div.y", "#", "a-b", "h1.c:d", " div", "div ", "a[b]"] {
        let fast = parse_query_selector(s).map(|x| render(&x));
        let general = Parser::new(s.as_bytes()).selector().map(|x| render(&x));
        assert_eq!(fast, general, "{}", s);
    }
    assert_eq!(
        parse_query_selector("div#x").map(|x| render(&x)),
        Some("and(tag(div),id(x))".to_string())
    );
}

#[test]
fn bounded_selector_reads_one_selector() {
    use_bounded("div", Some("tag(div)"));
    use_bounded(" .a  ", Some("class(a)"));
    use_bounded("[x=y]", Some("eq(x,y)"));
    use_bounded("#", Some("id()"));
    use_bounded("a b", None);
    use_bounded("a,b", None);
    use_bounded("div#x", None);
    use_bounded("", None);
    use_bounded("!", None);
    use_bounded("[x", None);
}

fn use_bounded(s: &str, expected: Option<&str>) {
    let got = Parser::new(s.as_bytes()).selector_bounded();
    match expected {
        Some(e) => assert_eq!(render(&got.unwrap()), e, "{}", s),
        None => assert!(
            matches!(got, Err(asm_tl::ParseError::SelectorCapacityExceeded)),
            "{}",
            s
        ),
    }
}
