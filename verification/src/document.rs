//! The drawing as a document: which of its elements are paths, and what
//! each says of its outline, its fill and its stroke.

use vstd::prelude::*;
use crate::color::{color_of, is_color, is_valid_color, parse_color};

verus! {

/// `roxmltree::Document`: a parsed document. All that is known of one is
/// the text it was parsed from.
#[verifier::external_type_specification]
#[verifier::external_body]
pub struct ExDocument<'input>(roxmltree::Document<'input>);

/// `roxmltree::Node`: a node of a parsed document. All that is known of
/// one is the text of its document and its place in it.
#[verifier::external_type_specification]
#[verifier::external_body]
pub struct ExNode<'a, 'input: 'a>(roxmltree::Node<'a, 'input>);

/// `roxmltree::Error`: why a text is no document. Nothing is known of what
/// it holds.
#[verifier::external_type_specification]
#[verifier::external_body]
pub struct ExError(roxmltree::Error);

/// Why a document gives no paths.
#[derive(Clone, Copy, Debug, PartialEq, Eq, Structural)]
pub enum DocumentError {
    /// The text is not well-formed XML.
    Malformed,
    /// The root element has no child element to hold the paths.
    NoGroup,
    /// A path element has no `d` attribute.
    MissingOutline,
    /// A `fill` or `stroke` attribute is not a color.
    BadColor,
    /// A stroked path element has no `stroke-width` attribute.
    MissingStrokeWidth,
}

/// How a path element is stroked: the color, and the width as written.
#[derive(Debug)]
pub struct StrokeText {
    pub rgba: u32,
    pub width: String,
}

/// One path element: its outline as written, and its colors.
#[derive(Debug)]
pub struct PathElement {
    pub outline: String,
    pub fill: Option<u32>,
    pub stroke: Option<StrokeText>,
}

// The text that the document was parsed from: what `Document::input_text`
// gives.
pub uninterp spec fn document_text(doc: roxmltree::Document) -> Seq<char>;

// The text of the document that the node belongs to: the `input_text` of
// what `Node::document` gives.
pub uninterp spec fn node_document(node: roxmltree::Node) -> Seq<char>;

// The place of the node in its document: what `Node::id` gives.
pub uninterp spec fn node_index(node: roxmltree::Node) -> nat;

// Whether `roxmltree::Document::parse` takes the text for a document.
pub uninterp spec fn xml_parses(text: Seq<char>) -> bool;

// The places of what `Node::children` gives, in order, for the node at
// `node` in the document of the text.
pub uninterp spec fn xml_children(text: Seq<char>, node: nat) -> Seq<nat>;

// What `Node::is_element` gives for the node at `node` in the document of
// the text.
pub uninterp spec fn xml_is_element(text: Seq<char>, node: nat) -> bool;

// What `Node::attribute` gives for the local name `name` and the node at
// `node` in the document of the text.
pub uninterp spec fn xml_attribute(text: Seq<char>, node: nat, name: Seq<char>) -> Option<
    Seq<char>,
>;

/// The first of the nodes that is an element, if one is.
pub open spec fn first_element(text: Seq<char>, nodes: Seq<nat>) -> Option<nat>
    decreases nodes.len(),
{
    if nodes.len() == 0 {
        None
    } else if xml_is_element(text, nodes[0]) {
        Some(nodes[0])
    } else {
        first_element(text, nodes.skip(1))
    }
}

/// The first child of the node at `node` that is an element, if one is.
pub open spec fn first_element_child_of(text: Seq<char>, node: nat) -> Option<nat> {
    first_element(text, xml_children(text, node))
}

/// Calls `roxmltree::Document::parse`. Whether it gives a document depends
/// on the text alone, and the document keeps the text it was given. The
/// parser descends once for each level of nesting: text nested deeply
/// enough exhausts the stack, as text long enough exhausts the memory.
#[verifier::external_body]
fn parse_document<'input>(text: &'input str) -> (r: Result<
    roxmltree::Document<'input>,
    roxmltree::Error,
>)
    ensures
        r is Ok <==> xml_parses(text@),
        r matches Ok(doc) ==> document_text(doc) == text@,
{
    roxmltree::Document::parse(text)
}

/// Calls `roxmltree::Document::root_element`. The node belongs to the
/// document and is the first child element of the node at place 0, the
/// document's root; every document has one.
#[verifier::external_body]
fn root_element<'a, 'input>(doc: &'a roxmltree::Document<'input>) -> (r: roxmltree::Node<
    'a,
    'input,
>)
    ensures
        node_document(r) == document_text(*doc),
        Some(node_index(r)) == first_element_child_of(document_text(*doc), 0),
{
    doc.root_element()
}

/// Calls `roxmltree::Node::first_element_child`. The result is the first
/// of the node's children that is an element, if one is; it belongs to the
/// same document.
#[verifier::external_body]
fn first_element_child<'a, 'input>(node: roxmltree::Node<'a, 'input>) -> (r: Option<
    roxmltree::Node<'a, 'input>,
>)
    ensures
        r is Some <==> first_element_child_of(node_document(node), node_index(node)) is Some,
        r matches Some(child) ==> node_document(child) == node_document(node) && Some(
            node_index(child),
        ) == first_element_child_of(node_document(node), node_index(node)),
{
    node.first_element_child()
}

/// Calls `roxmltree::Node::children` and collects the nodes in order. How
/// many there are, and their places, depend on the document's text and the
/// node's place alone; they belong to the same document.
#[verifier::external_body]
fn children<'a, 'input>(node: roxmltree::Node<'a, 'input>) -> (r: Vec<roxmltree::Node<'a, 'input>>)
    ensures
        r@.len() == xml_children(node_document(node), node_index(node)).len(),
        forall|i: int|
            0 <= i < r@.len() ==> node_document(#[trigger] r@[i]) == node_document(node)
                && node_index(r@[i]) == xml_children(node_document(node), node_index(node))[i],
{
    node.children().collect()
}

/// Calls `roxmltree::Node::is_element`. The answer depends on the
/// document's text and the node's place alone.
#[verifier::external_body]
fn is_element<'a, 'input>(node: &roxmltree::Node<'a, 'input>) -> (r: bool)
    ensures
        r == xml_is_element(node_document(*node), node_index(*node)),
{
    node.is_element()
}

/// Calls `roxmltree::Node::attribute` with a local name and copies the
/// value. Whether there is one, and what it is, depend on the document's
/// text, the node's place and the name alone.
#[verifier::external_body]
fn attribute<'a, 'input>(node: &roxmltree::Node<'a, 'input>, name: &str) -> (r: Option<String>)
    ensures
        r is Some <==> xml_attribute(node_document(*node), node_index(*node), name@) is Some,
        r matches Some(value) ==> Some(value@) == xml_attribute(
            node_document(*node),
            node_index(*node),
            name@,
        ),
{
    node.attribute(name).map(String::from)
}

/// The attributes of one element that say how it is drawn, as written.
#[derive(Debug)]
pub struct ElementAttributes {
    pub outline: Option<String>,
    pub fill: Option<String>,
    pub stroke: Option<String>,
    pub stroke_width: Option<String>,
}

/// Whether the text is a color.
pub open spec fn text_is_color(text: Seq<char>) -> bool {
    is_color(vstd::utf8::encode_utf8(text))
}

/// The color that the text stands for.
pub open spec fn text_color(text: Seq<char>) -> u32 {
    color_of(vstd::utf8::encode_utf8(text))
}

/// The attributes of one element as texts.
pub ghost struct AttributesView {
    pub outline: Option<Seq<char>>,
    pub fill: Option<Seq<char>>,
    pub stroke: Option<Seq<char>>,
    pub stroke_width: Option<Seq<char>>,
}

/// The characters of a text, if there is one.
pub open spec fn text_view(text: Option<String>) -> Option<Seq<char>> {
    match text {
        Some(text) => Some(text@),
        None => None,
    }
}

impl View for ElementAttributes {
    type V = AttributesView;

    open spec fn view(&self) -> AttributesView {
        AttributesView {
            outline: text_view(self.outline),
            fill: text_view(self.fill),
            stroke: text_view(self.stroke),
            stroke_width: text_view(self.stroke_width),
        }
    }
}

impl AttributesView {
    /// What is wrong with the attributes, if anything: the outline is
    /// looked at first, then the fill, then the stroke width, then the
    /// stroke color.
    pub open spec fn error(self) -> Option<DocumentError> {
        if self.outline is None {
            Some(DocumentError::MissingOutline)
        } else if self.fill matches Some(text) && !text_is_color(text) {
            Some(DocumentError::BadColor)
        } else if self.stroke is Some && self.stroke_width is None {
            Some(DocumentError::MissingStrokeWidth)
        } else if self.stroke matches Some(text) && !text_is_color(text) {
            Some(DocumentError::BadColor)
        } else {
            None
        }
    }

    /// Whether `el` is the path element with these attributes: it carries
    /// the outline, the fill color if there is a `fill`, and the stroke
    /// color and width if there is a `stroke`.
    pub open spec fn gives(self, el: PathElement) -> bool {
        &&& self.outline == Some(el.outline@)
        &&& el.fill is Some <==> self.fill is Some
        &&& el.fill matches Some(rgba) ==> rgba == text_color(self.fill->0)
        &&& el.stroke is Some <==> self.stroke is Some
        &&& el.stroke matches Some(st) ==> st.rgba == text_color(self.stroke->0)
            && self.stroke_width == Some(st.width@)
    }
}

/// The attributes as texts, one for one.
pub open spec fn views(attrs: Seq<ElementAttributes>) -> Seq<AttributesView> {
    Seq::new(attrs.len(), |i: int| attrs[i]@)
}

/// Whether `r` is what the elements with these attributes give: the path
/// elements in the same order, or what is wrong with the first attributes
/// that have something wrong.
pub open spec fn paths_result(
    attrs: Seq<AttributesView>,
    r: Result<Vec<PathElement>, DocumentError>,
) -> bool {
    &&& r is Ok <==> forall|i: int| 0 <= i < attrs.len() ==> (#[trigger] attrs[i]).error() is None
    &&& r matches Err(e) ==> exists|i: int|
        0 <= i < attrs.len() && (#[trigger] attrs[i]).error() == Some(e) && forall|j: int|
            0 <= j < i ==> (#[trigger] attrs[j]).error() is None
    &&& r matches Ok(elements) ==> elements@.len() == attrs.len() && forall|i: int|
        0 <= i < attrs.len() ==> (#[trigger] attrs[i]).gives(elements@[i])
}

/// The attributes that say how the element at `node` is drawn.
pub open spec fn attributes_at(text: Seq<char>, node: nat) -> AttributesView {
    AttributesView {
        outline: xml_attribute(text, node, "d"@),
        fill: xml_attribute(text, node, "fill"@),
        stroke: xml_attribute(text, node, "stroke"@),
        stroke_width: xml_attribute(text, node, "stroke-width"@),
    }
}

/// The attributes of those of the nodes that are elements, in order.
pub open spec fn gathered(text: Seq<char>, nodes: Seq<nat>) -> Seq<AttributesView>
    decreases nodes.len(),
{
    if nodes.len() == 0 {
        Seq::empty()
    } else if xml_is_element(text, nodes.last()) {
        gathered(text, nodes.drop_last()).push(attributes_at(text, nodes.last()))
    } else {
        gathered(text, nodes.drop_last())
    }
}

/// The attributes of the elements that may be paths of the drawing in
/// `text`: those of the child elements of the first child element of the
/// root, in document order. There are none if the text is no document, or
/// if the root has no child element.
pub open spec fn attributes_of(text: Seq<char>) -> Result<Seq<AttributesView>, DocumentError> {
    if !xml_parses(text) {
        Err(DocumentError::Malformed)
    } else {
        match first_element_child_of(text, 0) {
            None => Err(DocumentError::Malformed),
            Some(root) => match first_element_child_of(text, root) {
                None => Err(DocumentError::NoGroup),
                Some(group) => Ok(gathered(text, xml_children(text, group))),
            },
        }
    }
}

impl ElementAttributes {
    /// The path element with these attributes, or what is wrong with them.
    pub fn path_element(&self) -> (r: Result<PathElement, DocumentError>)
        ensures
            r is Err <==> self@.error() is Some,
            r matches Err(e) ==> self@.error() == Some(e),
            r matches Ok(el) ==> self@.gives(el),
    {
        let outline = match &self.outline {
            Some(text) => text.as_str(),
            None => {
                return Err(DocumentError::MissingOutline);
            },
        };
        let fill = match &self.fill {
            Some(text) => {
                if !is_valid_color(text.as_str()) {
                    return Err(DocumentError::BadColor);
                }
                Some(parse_color(text.as_str()))
            },
            None => None,
        };
        let stroke = match &self.stroke {
            Some(text) => {
                let width = match &self.stroke_width {
                    Some(width) => width.as_str(),
                    None => {
                        return Err(DocumentError::MissingStrokeWidth);
                    },
                };
                if !is_valid_color(text.as_str()) {
                    return Err(DocumentError::BadColor);
                }
                Some(StrokeText { rgba: parse_color(text.as_str()), width: width.to_owned() })
            },
            None => None,
        };
        Ok(PathElement { outline: outline.to_owned(), fill, stroke })
    }
}

/// The path elements with these attributes, in the same order. They are
/// refused for the first thing that is wrong with the first attributes that
/// have something wrong.
pub fn path_elements_of(attrs: &Vec<ElementAttributes>) -> (r: Result<
    Vec<PathElement>,
    DocumentError,
>)
    ensures
        paths_result(views(attrs@), r),
{
    let ghost texts = views(attrs@);
    let mut elements: Vec<PathElement> = Vec::new();
    let mut k: usize = 0;
    while k < attrs.len()
        invariant
            k <= attrs@.len(),
            texts == views(attrs@),
            elements@.len() == k,
            forall|i: int| 0 <= i < k ==> (#[trigger] texts[i]).error() is None,
            forall|i: int| 0 <= i < k ==> (#[trigger] texts[i]).gives(elements@[i]),
        decreases attrs@.len() - k,
    {
        match attrs[k].path_element() {
            Ok(element) => {
                elements.push(element);
            },
            Err(e) => {
                assert(texts[k as int].error() == Some(e));
                return Err(e);
            },
        }
        k += 1;
    }
    Ok(elements)
}

/// The attributes of the elements that may be paths of the drawing in
/// `svg`: those of the child elements of the first child element of the
/// root, in document order. The text is refused if it is not well-formed
/// or if the root has no child element.
pub fn element_attributes(svg: &str) -> (r: Result<Vec<ElementAttributes>, DocumentError>)
    ensures
        attributes_of(svg@) matches Err(e) ==> (r matches Err(refused) && refused == e),
        attributes_of(svg@) matches Ok(texts) ==> (r matches Ok(found) && views(found@) == texts),
{
    let doc = match parse_document(svg) {
        Ok(doc) => doc,
        Err(_) => {
            return Err(DocumentError::Malformed);
        },
    };
    let root = root_element(&doc);
    let group = match first_element_child(root) {
        Some(group) => group,
        None => {
            return Err(DocumentError::NoGroup);
        },
    };
    let nodes = children(group);
    let ghost places = xml_children(svg@, node_index(group));
    let mut found: Vec<ElementAttributes> = Vec::new();
    let mut k: usize = 0;
    assert(places.take(0) =~= Seq::empty());
    assert(views(found@) =~= gathered(svg@, places.take(0)));
    while k < nodes.len()
        invariant
            k <= nodes@.len(),
            nodes@.len() == places.len(),
            forall|i: int|
                0 <= i < nodes@.len() ==> node_document(#[trigger] nodes@[i]) == svg@ && node_index(
                    nodes@[i],
                ) == places[i],
            views(found@) == gathered(svg@, places.take(k as int)),
        decreases nodes@.len() - k,
    {
        let node = &nodes[k];
        let ghost before = found@;
        proof {
            let next = places.take(k + 1);
            assert(next.drop_last() =~= places.take(k as int));
            assert(next.last() == places[k as int]);
        }
        if is_element(node) {
            let attrs = ElementAttributes {
                outline: attribute(node, "d"),
                fill: attribute(node, "fill"),
                stroke: attribute(node, "stroke"),
                stroke_width: attribute(node, "stroke-width"),
            };
            assert(attrs@ == attributes_at(svg@, places[k as int]));
            found.push(attrs);
            assert(views(found@) =~= views(before).push(attrs@));
        }
        k += 1;
    }
    assert(places.take(k as int) =~= places);
    Ok(found)
}

/// The path elements of the drawing in `svg`. The text is refused as
/// `element_attributes` refuses it, or else for the first path element that
/// has something wrong.
pub fn path_elements(svg: &str) -> (r: Result<Vec<PathElement>, DocumentError>)
    ensures
        attributes_of(svg@) matches Err(e) ==> (r matches Err(refused) && refused == e),
        attributes_of(svg@) matches Ok(texts) ==> paths_result(texts, r),
{
    match element_attributes(svg) {
        Ok(attrs) => path_elements_of(&attrs),
        Err(e) => Err(e),
    }
}

} // verus!
