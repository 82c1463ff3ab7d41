//! Query selectors and how they match nodes.
use vstd::prelude::*;
use crate::parser::tag::{class_member, AttrsV, Node, NodeV};
use crate::scan::{
    attr_key_kind_spec, bytes_eq, contains_ascii_whitespace_token, contains_bytes, ends_with,
    contains_seq, has_ws_token, is_ascii_ws_spec, occurs_at, starts_with, ws_token_at,
};

verus! {

/// A single query selector node
pub enum Selector<'a> {
    /// Tag selector: foo
    Tag(&'a [u8]),
    /// ID selector: #foo
    Id(&'a [u8]),
    /// Class selector: .foo
    Class(&'a [u8]),
    /// All selector: *
    All,
    /// And combinator: .foo.bar
    And(Box<Selector<'a>>, Box<Selector<'a>>),
    /// Or combinator: .foo, .bar
    Or(Box<Selector<'a>>, Box<Selector<'a>>),
    /// Descendant combinator: .foo .bar
    Descendant(Box<Selector<'a>>, Box<Selector<'a>>),
    /// Parent combinator: .foo > .bar
    Parent(Box<Selector<'a>>, Box<Selector<'a>>),
    /// Attribute: \[foo\]
    Attribute(&'a [u8]),
    /// Attribute with value: [foo=bar]
    AttributeValue(&'a [u8], &'a [u8]),
    /// Attribute with whitespace-separated list of values that contains a value: [foo~=bar]
    AttributeValueWhitespacedContains(&'a [u8], &'a [u8]),
    /// Attribute with value that starts with: [foo^=bar]
    AttributeValueStartsWith(&'a [u8], &'a [u8]),
    /// Attribute with value that ends with: [foo$=bar]
    AttributeValueEndsWith(&'a [u8], &'a [u8]),
    /// Attribute with value that contains: [foo*=bar]
    AttributeValueSubstring(&'a [u8], &'a [u8]),
}

/// A selector, as byte strings.
pub enum SelectorV {
    Tag(Seq<u8>),
    Id(Seq<u8>),
    Class(Seq<u8>),
    All,
    And(Box<SelectorV>, Box<SelectorV>),
    Or(Box<SelectorV>, Box<SelectorV>),
    Descendant(Box<SelectorV>, Box<SelectorV>),
    Parent(Box<SelectorV>, Box<SelectorV>),
    Attribute(Seq<u8>),
    AttributeValue(Seq<u8>, Seq<u8>),
    AttributeValueWhitespacedContains(Seq<u8>, Seq<u8>),
    AttributeValueStartsWith(Seq<u8>, Seq<u8>),
    AttributeValueEndsWith(Seq<u8>, Seq<u8>),
    AttributeValueSubstring(Seq<u8>, Seq<u8>),
}

impl<'a> Selector<'a> {
    /// The selector as byte strings.
    pub open spec fn view_sel(&self) -> SelectorV
        decreases self,
    {
        match self {
            Selector::Tag(t) => SelectorV::Tag(t@),
            Selector::Id(t) => SelectorV::Id(t@),
            Selector::Class(t) => SelectorV::Class(t@),
            Selector::All => SelectorV::All,
            Selector::And(a, b) => SelectorV::And(Box::new(a.view_sel()), Box::new(b.view_sel())),
            Selector::Or(a, b) => SelectorV::Or(Box::new(a.view_sel()), Box::new(b.view_sel())),
            Selector::Descendant(a, b) => SelectorV::Descendant(
                Box::new(a.view_sel()),
                Box::new(b.view_sel()),
            ),
            Selector::Parent(a, b) => SelectorV::Parent(
                Box::new(a.view_sel()),
                Box::new(b.view_sel()),
            ),
            Selector::Attribute(a) => SelectorV::Attribute(a@),
            Selector::AttributeValue(a, v) => SelectorV::AttributeValue(a@, v@),
            Selector::AttributeValueWhitespacedContains(a, v) =>
                SelectorV::AttributeValueWhitespacedContains(a@, v@),
            Selector::AttributeValueStartsWith(a, v) => SelectorV::AttributeValueStartsWith(
                a@,
                v@,
            ),
            Selector::AttributeValueEndsWith(a, v) => SelectorV::AttributeValueEndsWith(a@, v@),
            Selector::AttributeValueSubstring(a, v) => SelectorV::AttributeValueSubstring(a@, v@),
        }
    }
}

impl<'a> View for Selector<'a> {
    type V = SelectorV;

    open spec fn view(&self) -> SelectorV {
        self.view_sel()
    }
}

/// The value of attribute `key`: `Some(v)` where present (`v` is `None` for an attribute
/// without a value); `id` and `class` are present only with a value.
pub open spec fn attrs_get(a: AttrsV, key: Seq<u8>) -> Option<Option<Seq<u8>>> {
    let kind = attr_key_kind_spec(key);
    if kind == 1 {
        match a.id {
            Some(v) => Some(Some(v)),
            None => None,
        }
    } else if kind == 2 {
        match a.class {
            Some(v) => Some(Some(v)),
            None => None,
        }
    } else if a.raw.contains_key(key) {
        Some(a.raw[key])
    } else {
        None
    }
}

/// How an attribute value is compared with a selector's value.
pub enum ValueTest {
    Equal,
    WordOf,
    Prefix,
    Suffix,
    Substring,
}

/// Whether attribute value `x` passes test `t` against `v`.
pub open spec fn value_test(t: ValueTest, x: Seq<u8>, v: Seq<u8>) -> bool {
    match t {
        ValueTest::Equal => x == v,
        ValueTest::WordOf => has_ws_token(x, v),
        ValueTest::Prefix => occurs_at(x, v, 0),
        ValueTest::Suffix => occurs_at(x, v, x.len() - v.len()),
        ValueTest::Substring => contains_seq(x, v),
    }
}

/// Node `n` is a tag whose attribute `key` has a value that passes `t` against `v`.
pub open spec fn attr_test(n: NodeV, key: Seq<u8>, v: Seq<u8>, t: ValueTest) -> bool {
    match n {
        NodeV::Tag(tag) => match attrs_get(tag.attrs, key) {
            Some(Some(x)) => value_test(t, x, v),
            _ => false,
        },
        _ => false,
    }
}

/// Whether selector `s` matches node `n` on its own (descendant and parent combinators,
/// which need the tree, match nothing).
pub open spec fn sel_matches(s: SelectorV, n: NodeV) -> bool
    decreases s,
{
    match s {
        SelectorV::Tag(name) => n matches NodeV::Tag(t) && t.name == name,
        SelectorV::Id(id) => n matches NodeV::Tag(t) && t.attrs.id == Some(id),
        SelectorV::Class(c) => n matches NodeV::Tag(t) && class_member(t.attrs, c),
        SelectorV::All => true,
        SelectorV::And(a, b) => sel_matches(*a, n) && sel_matches(*b, n),
        SelectorV::Or(a, b) => sel_matches(*a, n) || sel_matches(*b, n),
        SelectorV::Attribute(key) => n matches NodeV::Tag(t) && attrs_get(t.attrs, key) is Some,
        SelectorV::AttributeValue(key, v) => attr_test(n, key, v, ValueTest::Equal),
        SelectorV::AttributeValueWhitespacedContains(key, v) => attr_test(
            n,
            key,
            v,
            ValueTest::WordOf,
        ),
        SelectorV::AttributeValueStartsWith(key, v) => attr_test(n, key, v, ValueTest::Prefix),
        SelectorV::AttributeValueEndsWith(key, v) => attr_test(n, key, v, ValueTest::Suffix),
        SelectorV::AttributeValueSubstring(key, v) => attr_test(n, key, v, ValueTest::Substring),
        SelectorV::Descendant(_, _) => false,
        SelectorV::Parent(_, _) => false,
    }
}

/// Tests attribute `attribute` of `node` against `value` with `test`.
fn check_attribute(node: &Node, attribute: &[u8], value: &[u8], test: ValueTest) -> (b: bool)
    ensures
        b == attr_test(node@, attribute@, value@, test),
{
    match node.as_tag() {
        Some(t) => {
            let got = t.attributes.get(attribute);
            proof {
                let a = t.attributes@;
                assert(attrs_get(a, attribute@) == match got {
                    Some(Some(x)) => Some(Some(x@)),
                    Some(None) => Some(None::<Seq<u8>>),
                    None => None,
                });
            }
            match got {
                Some(Some(attr)) => match test {
                    ValueTest::Equal => bytes_eq(attr, value),
                    ValueTest::WordOf => contains_ascii_whitespace_token(attr, value),
                    ValueTest::Prefix => starts_with(attr, value),
                    ValueTest::Suffix => ends_with(attr, value),
                    ValueTest::Substring => contains_bytes(attr, value),
                },
                _ => false,
            }
        },
        None => false,
    }
}

impl<'a> Selector<'a> {
    /// Checks if the given node matches this selector
    pub fn matches<'b>(&self, node: &Node<'b>) -> (b: bool)
        ensures
            b == sel_matches(self@, node@),
        decreases self,
    {
        let r = match self {
            Selector::Tag(tag) => match node.as_tag() {
                Some(t) => bytes_eq(t.name, tag),
                None => false,
            },
            Selector::Id(id) => match node.as_tag() {
                Some(t) => match t.attributes.id {
                    Some(attr) => bytes_eq(attr, id),
                    None => false,
                },
                None => false,
            },
            Selector::Class(class) => match node.as_tag() {
                Some(t) => t.attributes.is_class_member(class),
                None => false,
            },
            Selector::And(a, b) => a.matches(node) && b.matches(node),
            Selector::Or(a, b) => a.matches(node) || b.matches(node),
            Selector::All => true,
            Selector::Attribute(attribute) => match node.as_tag() {
                Some(t) => {
                    let got = t.attributes.get(attribute);
                    proof {
                        let a = t.attributes@;
                        assert(attrs_get(a, attribute@) is Some == got is Some);
                    }
                    got.is_some()
                },
                None => false,
            },
            Selector::AttributeValue(attribute, value) => check_attribute(
                node,
                attribute,
                value,
                ValueTest::Equal,
            ),
            Selector::AttributeValueEndsWith(attribute, value) => check_attribute(
                node,
                attribute,
                value,
                ValueTest::Suffix,
            ),
            Selector::AttributeValueStartsWith(attribute, value) => check_attribute(
                node,
                attribute,
                value,
                ValueTest::Prefix,
            ),
            Selector::AttributeValueSubstring(attribute, value) => check_attribute(
                node,
                attribute,
                value,
                ValueTest::Substring,
            ),
            Selector::AttributeValueWhitespacedContains(attribute, value) => check_attribute(
                node,
                attribute,
                value,
                ValueTest::WordOf,
            ),
            _ => false,
        };
        r
    }
}

} // verus!

verus! {

/// The value of attribute `key` of node `n`, where `n` is a tag whose attribute `key` has a
/// value.
pub open spec fn value_of(n: NodeV, key: Seq<u8>) -> Option<Seq<u8>> {
    match n {
        NodeV::Tag(t) => match attrs_get(t.attrs, key) {
            Some(Some(x)) => Some(x),
            _ => None,
        },
        _ => None,
    }
}

/// What the attribute selectors test: `[k=v]` matches a tag whose attribute `k` has a value
/// equal to `v` byte for byte, `[k^=v]` one whose value begins with `v`, `[k$=v]` one whose
/// value ends with `v`, `[k*=v]` one whose value holds `v` somewhere, and `[k]` a tag that
/// has attribute `k` at all.
pub proof fn lemma_attribute_selectors(n: NodeV, key: Seq<u8>, v: Seq<u8>)
    ensures
        sel_matches(SelectorV::AttributeValue(key, v), n) <==> value_of(n, key) == Some(v),
        sel_matches(SelectorV::AttributeValueStartsWith(key, v), n) <==> (value_of(n, key) matches Some(
            x,
        ) && v.len() <= x.len() && x.subrange(0, v.len() as int) == v),
        sel_matches(SelectorV::AttributeValueEndsWith(key, v), n) <==> (value_of(n, key) matches Some(
            x,
        ) && v.len() <= x.len() && x.subrange(x.len() - v.len(), x.len() as int) == v),
        sel_matches(SelectorV::AttributeValueSubstring(key, v), n) <==> (value_of(n, key) matches Some(
            x,
        ) && exists|i: int| 0 <= i && i + v.len() <= x.len() && #[trigger] x.subrange(i, i + v.len()) == v),
        sel_matches(SelectorV::Attribute(key), n) <==> (n matches NodeV::Tag(t) && attrs_get(
            t.attrs,
            key,
        ) is Some),
{
    if let Some(x) = value_of(n, key) {
        if sel_matches(SelectorV::AttributeValueSubstring(key, v), n) {
            let i = choose|i: int| occurs_at(x, v, i);
            assert(x.subrange(i, i + v.len()) == v);
        }
        if exists|i: int| 0 <= i && i + v.len() <= x.len() && #[trigger] x.subrange(i, i + v.len()) == v {
            let i = choose|i: int| 0 <= i && i + v.len() <= x.len() && #[trigger] x.subrange(i, i + v.len()) == v;
            assert(occurs_at(x, v, i));
        }
    }
}

} // verus!

verus! {

/// Reading attribute `id` of a tag gives its id attribute's value (and nothing where it has
/// none), reading `class` gives its class attribute's value, and any other name is read from
/// the other attributes; none of them depends on the others.
pub proof fn lemma_attrs_get_names(a: AttrsV, key: Seq<u8>)
    ensures
        attrs_get(a, seq![105u8, 100]) == match a.id {
            Some(v) => Some(Some(v)),
            None => None::<Option<Seq<u8>>>,
        },
        attrs_get(a, seq![99u8, 108, 97, 115, 115]) == match a.class {
            Some(v) => Some(Some(v)),
            None => None::<Option<Seq<u8>>>,
        },
        key != seq![105u8, 100] && key != seq![99u8, 108, 97, 115, 115] ==> attrs_get(a, key)
            == if a.raw.contains_key(key) {
            Some(a.raw[key])
        } else {
            None
        },
{
    assert(seq![105u8, 100] != seq![99u8, 108, 97, 115, 115]) by {
        assert(seq![105u8, 100].len() != seq![99u8, 108, 97, 115, 115].len());
    }
}

} // verus!

verus! {

/// What the simple selectors and the combinators that need no tree test: `tag` matches a
/// tag with that name, `#id` a tag whose id attribute equals `id`, `.c` a tag whose class
/// attribute holds `c` as a whole whitespace-separated word, `*` every node; `a b` written
/// together matches where both match and `a, b` where either does; the descendant and
/// parent combinators, which need the tree, match no node on its own.
pub proof fn lemma_simple_selectors(n: NodeV, name: Seq<u8>, a: SelectorV, b: SelectorV)
    ensures
        sel_matches(SelectorV::Tag(name), n) <==> (n matches NodeV::Tag(t) && t.name == name),
        sel_matches(SelectorV::Id(name), n) <==> value_of(n, seq![105u8, 100]) == Some(name),
        sel_matches(SelectorV::Class(name), n) <==> (value_of(n, seq![99u8, 108, 97, 115, 115]) matches Some(
            x,
        ) && name.len() > 0 && exists|i: int|
            0 <= i && i + name.len() <= x.len() && #[trigger] x.subrange(i, i + name.len()) == name
                && (i == 0 || is_ascii_ws_spec(x[i - 1])) && (i + name.len() == x.len()
                || is_ascii_ws_spec(x[i + name.len()])) && forall|k: int|
                0 <= k < name.len() ==> !is_ascii_ws_spec(#[trigger] name[k])),
        sel_matches(SelectorV::All, n),
        sel_matches(SelectorV::And(Box::new(a), Box::new(b)), n) <==> (sel_matches(a, n)
            && sel_matches(b, n)),
        sel_matches(SelectorV::Or(Box::new(a), Box::new(b)), n) <==> (sel_matches(a, n)
            || sel_matches(b, n)),
        !sel_matches(SelectorV::Descendant(Box::new(a), Box::new(b)), n),
        !sel_matches(SelectorV::Parent(Box::new(a), Box::new(b)), n),
{
    lemma_attrs_get_names(
        match n {
            NodeV::Tag(t) => t.attrs,
            _ => AttrsV { id: None, class: None, raw: Map::empty() },
        },
        name,
    );
    if let NodeV::Tag(t) = n {
        if let Some(x) = t.attrs.class {
            if has_ws_token(x, name) {
                let i = choose|i: int| ws_token_at(x, name, i);
                assert(x.subrange(i, i + name.len()) == name);
            }
            if name.len() > 0 && exists|i: int|
                0 <= i && i + name.len() <= x.len() && #[trigger] x.subrange(i, i + name.len()) == name
                    && (i == 0 || is_ascii_ws_spec(x[i - 1])) && (i + name.len() == x.len()
                    || is_ascii_ws_spec(x[i + name.len()])) && forall|k: int|
                    0 <= k < name.len() ==> !is_ascii_ws_spec(#[trigger] name[k]) {
                let i = choose|i: int|
                    0 <= i && i + name.len() <= x.len() && #[trigger] x.subrange(i, i + name.len()) == name
                        && (i == 0 || is_ascii_ws_spec(x[i - 1])) && (i + name.len() == x.len()
                        || is_ascii_ws_spec(x[i + name.len()])) && forall|k: int|
                        0 <= k < name.len() ==> !is_ascii_ws_spec(#[trigger] name[k]);
                assert(ws_token_at(x, name, i));
            }
        }
    }
}

} // verus!
