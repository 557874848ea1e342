use vstd::prelude::*;
use vstd::string::*;
use vstd::utf8::{decode_utf8, valid_utf8};
use crate::error::PptxError;
use crate::text::str_eq;

verus! {

/// `roxmltree::Node`, a node of a document as the parser holds it. It is
/// copied into an [`XmlNode`] and goes no further.
#[verifier::external_type_specification]
#[verifier::external_body]
pub struct ExXmlNode<'a, 'input: 'a>(roxmltree::Node<'a, 'input>);

/// An attribute of an element: its local name, the URI of its namespace where
/// it has one, and its value.
#[derive(Debug, Clone)]
pub struct XmlAttribute {
    pub name: String,
    pub namespace: Option<String>,
    pub value: String,
}

/// A node of a parsed XML document with all that is below it.
///
/// An element has a local name, the URI of its namespace where it has one,
/// and attributes. Any other node (text, comment, processing instruction) has
/// an empty name, no namespace and no attribute. `text` is the node's own
/// text for a text node or a comment, and for an element the text of its
/// first child where that is a text node.
#[derive(Debug)]
pub struct XmlNode {
    pub is_element: bool,
    pub name: String,
    pub namespace: Option<String>,
    pub attributes: Vec<XmlAttribute>,
    pub text: Option<String>,
    pub children: Vec<XmlNode>,
}

/// The root element of the document that `roxmltree` reads from a text, as a
/// tree of nodes, or the error it reports.
pub uninterp spec fn xml_document(text: Seq<char>) -> Result<XmlNode, roxmltree::Error>;

/// What `std::str::from_utf8` reports of bytes that are no UTF-8 text: how
/// far they are well-formed, and how long the sequence at fault is.
pub uninterp spec fn utf8_failure(bytes: Seq<u8>) -> std::str::Utf8Error;

/// Reads bytes as UTF-8 text with `std::str::from_utf8`, which accepts
/// exactly the well-formed UTF-8 sequences and hands the same bytes back as
/// text. What it reports of other bytes depends on the bytes alone.
#[verifier::external_body]
pub(crate) fn utf8_text(bytes: &[u8]) -> (text: Result<&str, std::str::Utf8Error>)
    ensures
        match text {
            Ok(s) => valid_utf8(bytes@) && s@ == decode_utf8(bytes@),
            Err(error) => !valid_utf8(bytes@) && error == utf8_failure(bytes@),
        },
{
    std::str::from_utf8(bytes)
}

/// Copies what `roxmltree` tells of a node, and of every node below it, into
/// a tree of the library: `is_element`, the local name and the namespace of
/// `tag_name`, each of `attributes` with its `name`, `namespace` and `value`,
/// `text`, and the `children` in document order.
#[verifier::external_body]
fn node_tree(node: roxmltree::Node) -> XmlNode {
    XmlNode {
        is_element: node.is_element(),
        name: node.tag_name().name().to_string(),
        namespace: node.tag_name().namespace().map(|uri| uri.to_string()),
        attributes: node.attributes().map(|a| XmlAttribute {
            name: a.name().to_string(),
            namespace: a.namespace().map(|uri| uri.to_string()),
            value: a.value().to_string(),
        }).collect(),
        text: node.text().map(|text| text.to_string()),
        children: node.children().map(node_tree).collect(),
    }
}

/// Parses a text with `roxmltree::Document::parse` and copies the root
/// element of the document into a tree of the library. What the parser makes
/// of a text depends on the text alone.
#[verifier::external_body]
pub(crate) fn parse_document(text: &str) -> (document: Result<XmlNode, roxmltree::Error>)
    ensures
        document == xml_document(text@),
{
    let document = roxmltree::Document::parse(text)?;
    Ok(node_tree(document.root_element()))
}

/// Which nodes a search is for, as a mathematical value.
pub struct TagView {
    pub elements_only: bool,
    pub any_namespace: bool,
    pub namespace: Option<Seq<char>>,
    pub name: Seq<char>,
}

/// Which nodes a search is for: those with the given local name, in the
/// given namespace unless any will do, and elements only where that is asked.
#[derive(Debug, Clone, Copy)]
pub struct Tag<'a> {
    pub elements_only: bool,
    pub any_namespace: bool,
    pub namespace: Option<&'a str>,
    pub name: &'a str,
}

impl<'a> View for Tag<'a> {
    type V = TagView;

    open spec fn view(&self) -> TagView {
        TagView {
            elements_only: self.elements_only,
            any_namespace: self.any_namespace,
            namespace: match self.namespace {
                Some(uri) => Some(uri@),
                None => None,
            },
            name: self.name@,
        }
    }
}

/// The elements with the given name in the given namespace.
pub open spec fn element_in(namespace: Seq<char>, name: Seq<char>) -> TagView {
    TagView { elements_only: true, any_namespace: false, namespace: Some(namespace), name: name }
}

/// The nodes with the given name in the given namespace.
pub open spec fn node_in(namespace: Option<Seq<char>>, name: Seq<char>) -> TagView {
    TagView { elements_only: false, any_namespace: false, namespace: namespace, name: name }
}

/// The elements with the given name, in whatever namespace.
pub open spec fn element_named(name: Seq<char>) -> TagView {
    TagView { elements_only: true, any_namespace: true, namespace: None, name: name }
}

impl<'a> Tag<'a> {
    pub fn element_in(namespace: &'a str, name: &'a str) -> (tag: Tag<'a>)
        ensures
            tag@ == element_in(namespace@, name@),
    {
        Tag { elements_only: true, any_namespace: false, namespace: Some(namespace), name }
    }

    pub fn node_in(namespace: Option<&'a str>, name: &'a str) -> (tag: Tag<'a>)
        ensures
            tag@ == node_in(
                match namespace {
                    Some(uri) => Some(uri@),
                    None => None,
                },
                name@,
            ),
    {
        Tag { elements_only: false, any_namespace: false, namespace, name }
    }

    pub fn element_named(name: &'a str) -> (tag: Tag<'a>)
        ensures
            tag@ == element_named(name@),
    {
        Tag { elements_only: true, any_namespace: true, namespace: None, name }
    }
}

/// Whether a node is one of those that `tag` is for.
pub open spec fn accepts(tag: TagView, node: XmlNode) -> bool {
    &&& !tag.elements_only || node.is_element
    &&& node.name@ == tag.name
    &&& tag.any_namespace || node.namespace_view() == tag.namespace
}

/// Those of the nodes that `tag` is for, in their order.
pub open spec fn matching(nodes: Seq<XmlNode>, tag: TagView) -> Seq<XmlNode>
    decreases nodes.len(),
{
    if nodes.len() == 0 {
        Seq::empty()
    } else if accepts(tag, nodes.last()) {
        matching(nodes.drop_last(), tag).push(nodes.last())
    } else {
        matching(nodes.drop_last(), tag)
    }
}

/// The first of the nodes that `tag` is for.
pub open spec fn first_matching(nodes: Seq<XmlNode>, tag: TagView) -> Option<XmlNode> {
    if matching(nodes, tag).len() > 0 {
        Some(matching(nodes, tag)[0])
    } else {
        None
    }
}

/// A node and all that is below it, in document order.
pub open spec fn descendants(node: XmlNode) -> Seq<XmlNode>
    decreases node,
{
    seq![node] + descendants_of_first(node.children@, node.children@.len() as int)
}

/// All that is at or below the first `n` of the given nodes, in document order.
pub open spec fn descendants_of_first(nodes: Seq<XmlNode>, n: int) -> Seq<XmlNode>
    decreases nodes, n,
{
    if 0 < n <= nodes.len() {
        descendants_of_first(nodes, n - 1) + descendants(nodes[n - 1])
    } else {
        Seq::empty()
    }
}

/// The value of the first attribute with the given name and namespace.
pub open spec fn attribute_value(
    attributes: Seq<XmlAttribute>,
    namespace: Option<Seq<char>>,
    name: Seq<char>,
) -> Option<Seq<char>>
    decreases attributes.len(),
{
    if attributes.len() == 0 {
        None
    } else if attributes[0].name@ == name && attributes[0].namespace_view() == namespace {
        Some(attributes[0].value@)
    } else {
        attribute_value(attributes.skip(1), namespace, name)
    }
}

/// The nodes that the references lead to.
pub open spec fn nodes_of(references: Seq<&XmlNode>) -> Seq<XmlNode> {
    Seq::new(references.len(), |k: int| *references[k])
}

fn same_namespace(have: &Option<String>, want: Option<&str>) -> (same: bool)
    ensures
        same == (match have {
            Some(uri) => Some(uri@),
            None => None,
        } == match want {
            Some(uri) => Some(uri@),
            None => None,
        }),
{
    match have {
        Some(uri) => match want {
            Some(wanted) => str_eq(uri.as_str(), wanted),
            None => false,
        },
        None => want.is_none(),
    }
}

impl XmlAttribute {
    /// The URI of the attribute's namespace.
    pub open spec fn namespace_view(self) -> Option<Seq<char>> {
        match self.namespace {
            Some(uri) => Some(uri@),
            None => None,
        }
    }
}

proof fn lemma_matching_take_next(nodes: Seq<XmlNode>, tag: TagView, i: int)
    requires
        0 <= i < nodes.len(),
    ensures
        matching(nodes.take(i + 1), tag) == if accepts(tag, nodes[i]) {
            matching(nodes.take(i), tag).push(nodes[i])
        } else {
            matching(nodes.take(i), tag)
        },
{
    assert(nodes.take(i + 1).drop_last() =~= nodes.take(i));
}

proof fn lemma_matching_keeps_first(nodes: Seq<XmlNode>, tag: TagView, i: int)
    requires
        0 <= i <= nodes.len(),
        matching(nodes.take(i), tag).len() > 0,
    ensures
        matching(nodes, tag).len() > 0,
        matching(nodes, tag)[0] == matching(nodes.take(i), tag)[0],
    decreases nodes.len() - i,
{
    if i == nodes.len() {
        assert(nodes.take(i) =~= nodes);
    } else {
        lemma_matching_take_next(nodes, tag, i);
        lemma_matching_keeps_first(nodes, tag, i + 1);
    }
}

impl XmlNode {
    /// The URI of the node's namespace.
    pub open spec fn namespace_view(self) -> Option<Seq<char>> {
        match self.namespace {
            Some(uri) => Some(uri@),
            None => None,
        }
    }

    /// The node's text; empty where it has none.
    pub open spec fn text_view(self) -> Seq<char> {
        match self.text {
            Some(text) => text@,
            None => Seq::empty(),
        }
    }

    /// Whether the node is one of those that `tag` is for.
    pub fn is_a(&self, tag: &Tag) -> (yes: bool)
        ensures
            yes == accepts(tag@, *self),
    {
        (!tag.elements_only || self.is_element) && str_eq(self.name.as_str(), tag.name) && (
        tag.any_namespace || same_namespace(&self.namespace, tag.namespace))
    }

    /// Those of the node's children that `tag` is for.
    pub fn children_matching<'a>(&'a self, tag: &Tag) -> (found: Vec<&'a XmlNode>)
        ensures
            nodes_of(found@) == matching(self.children@, tag@),
    {
        select(&self.children, tag)
    }

    /// The first of the node's children that `tag` is for.
    pub fn first_child_matching<'a>(&'a self, tag: &Tag) -> (found: Option<&'a XmlNode>)
        ensures
            match found {
                Some(child) => first_matching(self.children@, tag@) == Some(*child),
                None => first_matching(self.children@, tag@) is None,
            },
    {
        let mut i: usize = 0;
        proof {
            assert(self.children@.take(0) =~= Seq::<XmlNode>::empty());
        }
        while i < self.children.len()
            invariant
                i <= self.children.len(),
                matching(self.children@.take(i as int), tag@).len() == 0,
            decreases self.children.len() - i,
        {
            proof {
                lemma_matching_take_next(self.children@, tag@, i as int);
            }
            if self.children[i].is_a(tag) {
                proof {
                    lemma_matching_keeps_first(self.children@, tag@, i + 1);
                }
                return Some(&self.children[i]);
            }
            i += 1;
        }
        proof {
            assert(self.children@.take(self.children.len() as int) =~= self.children@);
        }
        None
    }

    /// The node and all that is below it, in document order.
    pub fn descendants<'a>(&'a self) -> (all: Vec<&'a XmlNode>)
        ensures
            nodes_of(all@) == descendants(*self),
    {
        let mut all: Vec<&'a XmlNode> = Vec::new();
        self.collect_descendants(&mut all);
        proof {
            assert(nodes_of(all@) =~= descendants(*self));
        }
        all
    }

    fn collect_descendants<'a>(&'a self, all: &mut Vec<&'a XmlNode>)
        ensures
            nodes_of(final(all)@) == nodes_of(old(all)@) + descendants(*self),
        decreases self,
    {
        let ghost start = nodes_of(all@);
        all.push(self);
        let mut i: usize = 0;
        proof {
            assert(nodes_of(all@) =~= start + seq![*self] + descendants_of_first(
                self.children@,
                0,
            ));
        }
        while i < self.children.len()
            invariant
                i <= self.children.len(),
                nodes_of(all@) == start + seq![*self] + descendants_of_first(
                    self.children@,
                    i as int,
                ),
            decreases self.children.len() - i,
        {
            let ghost so_far = nodes_of(all@);
            self.children[i].collect_descendants(all);
            proof {
                assert(nodes_of(all@) =~= start + seq![*self] + descendants_of_first(
                    self.children@,
                    i + 1,
                ));
            }
            i += 1;
        }
        proof {
            assert(nodes_of(all@) =~= start + descendants(*self));
        }
    }

    /// Those of the node and all below it that `tag` is for, in document order.
    pub fn descendants_matching<'a>(&'a self, tag: &Tag) -> (found: Vec<&'a XmlNode>)
        ensures
            nodes_of(found@) == matching(descendants(*self), tag@),
    {
        let all = self.descendants();
        select_references(&all, tag)
    }

    /// The first of the node and all below it that `tag` is for.
    pub fn first_descendant_matching<'a>(&'a self, tag: &Tag) -> (found: Option<&'a XmlNode>)
        ensures
            match found {
                Some(node) => first_matching(descendants(*self), tag@) == Some(*node),
                None => first_matching(descendants(*self), tag@) is None,
            },
    {
        let found = self.descendants_matching(tag);
        if found.len() > 0 {
            assert(nodes_of(found@)[0] == *found@[0]);
            Some(found[0])
        } else {
            None
        }
    }

    /// The value of the node's first attribute that has the given name and
    /// no namespace.
    pub fn attribute<'a>(&'a self, name: &str) -> (value: Option<&'a str>)
        ensures
            match value {
                Some(text) => attribute_value(self.attributes@, None, name@) == Some(text@),
                None => attribute_value(self.attributes@, None, name@) is None,
            },
    {
        self.find_attribute(None, name)
    }

    /// The value of the node's first attribute that has the given name in
    /// the given namespace.
    pub fn attribute_in<'a>(&'a self, namespace: &str, name: &str) -> (value: Option<&'a str>)
        ensures
            match value {
                Some(text) => attribute_value(self.attributes@, Some(namespace@), name@) == Some(
                    text@,
                ),
                None => attribute_value(self.attributes@, Some(namespace@), name@) is None,
            },
    {
        self.find_attribute(Some(namespace), name)
    }

    fn find_attribute<'a>(&'a self, namespace: Option<&str>, name: &str) -> (value: Option<
        &'a str,
    >)
        ensures
            match value {
                Some(text) => attribute_value(
                    self.attributes@,
                    match namespace {
                        Some(uri) => Some(uri@),
                        None => None,
                    },
                    name@,
                ) == Some(text@),
                None => attribute_value(
                    self.attributes@,
                    match namespace {
                        Some(uri) => Some(uri@),
                        None => None,
                    },
                    name@,
                ) is None,
            },
    {
        let ghost wanted = match namespace {
            Some(uri) => Some(uri@),
            None => None,
        };
        let mut i: usize = 0;
        proof {
            assert(self.attributes@.skip(0) =~= self.attributes@);
        }
        while i < self.attributes.len()
            invariant
                i <= self.attributes.len(),
                wanted == match namespace {
                    Some(uri) => Some(uri@),
                    None => None,
                },
                attribute_value(self.attributes@, wanted, name@) == attribute_value(
                    self.attributes@.skip(i as int),
                    wanted,
                    name@,
                ),
            decreases self.attributes.len() - i,
        {
            proof {
                assert(self.attributes@.skip(i as int).skip(1) =~= self.attributes@.skip(i + 1));
            }
            let attribute = &self.attributes[i];
            if str_eq(attribute.name.as_str(), name) && same_namespace(
                &attribute.namespace,
                namespace,
            ) {
                return Some(attribute.value.as_str());
            }
            i += 1;
        }
        None
    }
}

/// Those of the nodes that `tag` is for.
pub fn select<'a>(nodes: &'a Vec<XmlNode>, tag: &Tag) -> (found: Vec<&'a XmlNode>)
    ensures
        nodes_of(found@) == matching(nodes@, tag@),
{
    let mut found: Vec<&'a XmlNode> = Vec::new();
    let mut i: usize = 0;
    proof {
        assert(nodes@.take(0) =~= Seq::<XmlNode>::empty());
        assert(nodes_of(found@) =~= Seq::<XmlNode>::empty());
    }
    while i < nodes.len()
        invariant
            i <= nodes.len(),
            nodes_of(found@) == matching(nodes@.take(i as int), tag@),
        decreases nodes.len() - i,
    {
        let ghost before = nodes_of(found@);
        proof {
            lemma_matching_take_next(nodes@, tag@, i as int);
        }
        if nodes[i].is_a(tag) {
            found.push(&nodes[i]);
            proof {
                assert(nodes_of(found@) =~= before.push(nodes@[i as int]));
            }
        }
        i += 1;
    }
    proof {
        assert(nodes@.take(nodes.len() as int) =~= nodes@);
    }
    found
}

/// Those of the nodes that `tag` is for.
pub fn select_references<'a>(nodes: &Vec<&'a XmlNode>, tag: &Tag) -> (found: Vec<&'a XmlNode>)
    ensures
        nodes_of(found@) == matching(nodes_of(nodes@), tag@),
{
    let ghost all = nodes_of(nodes@);
    let mut found: Vec<&'a XmlNode> = Vec::new();
    let mut i: usize = 0;
    proof {
        assert(all.take(0) =~= Seq::<XmlNode>::empty());
        assert(nodes_of(found@) =~= Seq::<XmlNode>::empty());
    }
    while i < nodes.len()
        invariant
            i <= nodes.len(),
            all == nodes_of(nodes@),
            nodes_of(found@) == matching(all.take(i as int), tag@),
        decreases nodes.len() - i,
    {
        let ghost before = nodes_of(found@);
        proof {
            lemma_matching_take_next(all, tag@, i as int);
        }
        if nodes[i].is_a(tag) {
            found.push(nodes[i]);
            proof {
                assert(nodes_of(found@) =~= before.push(all[i as int]));
            }
        }
        i += 1;
    }
    proof {
        assert(all.take(nodes.len() as int) =~= all);
    }
    found
}

/// The root element of the XML document that a text holds, with all that is
/// below it.
pub fn parse_xml_text(text: &str) -> (root: Result<XmlNode, PptxError>)
    ensures
        match root {
            Ok(node) => xml_document(text@) == Ok::<XmlNode, roxmltree::Error>(node),
            Err(error) => xml_document(text@) is Err && error == PptxError::Xml(
                xml_document(text@)->Err_0,
            ),
        },
{
    match parse_document(text) {
        Ok(node) => Ok(node),
        Err(error) => Err(PptxError::Xml(error)),
    }
}

} // verus!
