//! The nodes of a parsed document.
use vstd::prelude::*;
use crate::bytemap::BytesMap;
use crate::scan::{contains_ascii_whitespace_token, has_ws_token, attr_key_kind, attr_key_kind_spec};

verus! {

/// The index of a node in its parser's node list.
#[derive(Debug, Clone, Copy, PartialEq, Eq, Structural)]
pub struct NodeHandle(pub u32);

impl NodeHandle {
    /// A handle for the node at index `id`.
    pub fn new(id: u32) -> (h: Self)
        ensures
            h.0 == id,
    {
        NodeHandle(id)
    }

    /// The node index.
    pub fn get_inner(&self) -> (id: u32)
        ensures
            id == self.0,
    {
        self.0
    }
}

/// The attributes of a tag: `id` and `class` apart, the others in a map.
pub struct Attributes<'a> {
    pub id: Option<&'a [u8]>,
    pub class: Option<&'a [u8]>,
    pub raw: BytesMap<'a, Option<&'a [u8]>>,
}

/// The value that [`Attributes::get`] gives for a key: `Some(value)` where the attribute is
/// present (`value` being `None` for an attribute without `=`), `None` where it is absent;
/// `id` and `class` count as present only where they have a value.
pub open spec fn attr_get<'a>(a: Attributes<'a>, key: Seq<u8>) -> Option<Option<&'a [u8]>> {
    let kind = attr_key_kind_spec(key);
    if kind == 1 {
        match a.id {
            Some(v) => Some(Some(v)),
            None => None,
        }
    } else if kind == 2 {
        match a.class {
            Some(v) => Some(Some(v)),
            None => None,
        }
    } else {
        a.raw.get_spec(key)
    }
}

/// Whether `member` is one of the whitespace-separated words of the `class` attribute.
pub open spec fn class_member(a: AttrsV, member: Seq<u8>) -> bool {
    match a.class {
        Some(c) => has_ws_token(c, member),
        None => false,
    }
}

impl<'a> Attributes<'a> {
    /// No attributes.
    pub fn new() -> (a: Self)
        ensures
            a.id is None,
            a.class is None,
            forall|k: Seq<u8>| a.raw.get_spec(k) is None,
    {
        Attributes { id: None, class: None, raw: BytesMap::new() }
    }

    /// The attribute `key`, see [`attr_get`].
    pub fn get(&self, key: &[u8]) -> (res: Option<Option<&'a [u8]>>)
        ensures
            res == attr_get(*self, key@),
    {
        let kind = attr_key_kind(key);
        if kind == 1 {
            match self.id {
                Some(v) => Some(Some(v)),
                None => None,
            }
        } else if kind == 2 {
            match self.class {
                Some(v) => Some(Some(v)),
                None => None,
            }
        } else {
            match self.raw.get(key) {
                Some(v) => Some(*v),
                None => None,
            }
        }
    }

    /// Whether `member` is one of the classes of the tag.
    pub fn is_class_member(&self, member: &[u8]) -> (b: bool)
        ensures
            b == class_member(self@, member@),
    {
        match self.class {
            Some(c) => {
                assert(self@.class == Some(c@));
                contains_ascii_whitespace_token(c, member)
            },
            None => false,
        }
    }
}

/// An HTML tag.
pub struct HTMLTag<'a> {
    pub name: &'a [u8],
    pub attributes: Attributes<'a>,
    pub children: Vec<NodeHandle>,
    /// The source text of the tag: its opening tag, and after it is closed also its content
    /// and closing tag.
    pub raw: &'a [u8],
    /// Where the source text starts in the input.
    pub raw_start: usize,
}

impl<'a> HTMLTag<'a> {
    /// The tag name.
    pub fn name(&self) -> (n: &'a [u8])
        ensures
            n == self.name,
    {
        self.name
    }

    /// The attributes.
    pub fn attributes(&self) -> (a: &Attributes<'a>)
        ensures
            *a == self.attributes,
    {
        &self.attributes
    }

    /// The handles of the child nodes, in document order.
    pub fn children(&self) -> (c: &[NodeHandle])
        ensures
            c@ == self.children@,
    {
        self.children.as_slice()
    }

    /// The source text of the tag.
    pub fn raw(&self) -> (r: &'a [u8])
        ensures
            r == self.raw,
    {
        self.raw
    }
}

/// A node of a parsed document.
pub enum Node<'a> {
    /// A tag.
    Tag(HTMLTag<'a>),
    /// Text between tags.
    Raw(&'a [u8]),
    /// A comment, `<!--` and `-->` included.
    Comment(&'a [u8]),
}

impl<'a> Node<'a> {
    /// The tag, where the node is one.
    pub fn as_tag(&self) -> (t: Option<&HTMLTag<'a>>)
        ensures
            match self {
                Node::Tag(tag) => t == Some(tag),
                _ => t is None,
            },
    {
        match self {
            Node::Tag(tag) => Some(tag),
            _ => None,
        }
    }

    /// The text, where the node is text.
    pub fn as_raw(&self) -> (r: Option<&'a [u8]>)
        ensures
            match self {
                Node::Raw(b) => r == Some(*b),
                _ => r is None,
            },
    {
        match self {
            Node::Raw(b) => Some(*b),
            _ => None,
        }
    }

    /// The comment, where the node is one.
    pub fn as_comment(&self) -> (r: Option<&'a [u8]>)
        ensures
            match self {
                Node::Comment(b) => r == Some(*b),
                _ => r is None,
            },
    {
        match self {
            Node::Comment(b) => Some(*b),
            _ => None,
        }
    }
}

} // verus!

verus! {

/// The attributes of a tag, as byte strings.
pub struct AttrsV {
    pub id: Option<Seq<u8>>,
    pub class: Option<Seq<u8>>,
    pub raw: Map<Seq<u8>, Option<Seq<u8>>>,
}

/// A tag, as byte strings and node indices.
pub struct TagV {
    pub name: Seq<u8>,
    pub attrs: AttrsV,
    pub children: Seq<u32>,
    pub raw: Seq<u8>,
    pub raw_start: int,
}

/// A node, as byte strings and node indices.
pub enum NodeV {
    Tag(TagV),
    Raw(Seq<u8>),
    Comment(Seq<u8>),
}

pub open spec fn opt_bytes(o: Option<&[u8]>) -> Option<Seq<u8>> {
    match o {
        Some(b) => Some(b@),
        None => None,
    }
}

pub open spec fn handles(v: Seq<NodeHandle>) -> Seq<u32> {
    v.map_values(|h: NodeHandle| h.0)
}

pub open spec fn empty_attrs_v() -> AttrsV {
    AttrsV { id: None, class: None, raw: Map::empty() }
}

impl<'a> View for Attributes<'a> {
    type V = AttrsV;

    open spec fn view(&self) -> AttrsV {
        AttrsV {
            id: opt_bytes(self.id),
            class: opt_bytes(self.class),
            raw: Map::new(
                |k: Seq<u8>| self.raw.get_spec(k) is Some,
                |k: Seq<u8>| opt_bytes(self.raw.get_spec(k).unwrap()),
            ),
        }
    }
}

impl<'a> View for HTMLTag<'a> {
    type V = TagV;

    open spec fn view(&self) -> TagV {
        TagV {
            name: self.name@,
            attrs: self.attributes@,
            children: handles(self.children@),
            raw: self.raw@,
            raw_start: self.raw_start as int,
        }
    }
}

impl<'a> View for Node<'a> {
    type V = NodeV;

    open spec fn view(&self) -> NodeV {
        match self {
            Node::Tag(t) => NodeV::Tag(t@),
            Node::Raw(b) => NodeV::Raw(b@),
            Node::Comment(b) => NodeV::Comment(b@),
        }
    }
}

} // verus!

verus! {

/// [`Attributes::get`] of `id` gives the id attribute's value (and nothing where it has
/// none), of `class` the class attribute's value, and of any other name the value stored
/// under that name; none of them depends on the others.
pub proof fn lemma_attr_get_names<'a>(a: Attributes<'a>, key: Seq<u8>)
    ensures
        attr_get(a, seq![105u8, 100]) == match a.id {
            Some(v) => Some(Some(v)),
            None => None::<Option<&'a [u8]>>,
        },
        attr_get(a, seq![99u8, 108, 97, 115, 115]) == match a.class {
            Some(v) => Some(Some(v)),
            None => None::<Option<&'a [u8]>>,
        },
        key != seq![105u8, 100] && key != seq![99u8, 108, 97, 115, 115] ==> attr_get(a, key)
            == a.raw.get_spec(key),
{
    assert(seq![105u8, 100] != seq![99u8, 108, 97, 115, 115]) by {
        assert(seq![105u8, 100].len() != seq![99u8, 108, 97, 115, 115].len());
    }
}

} // verus!
