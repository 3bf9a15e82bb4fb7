//! Parsing text into document trees and writing trees out as text.
//!
//! The HTML parser and serialiser work on a DOM of shared nodes. A document
//! enters the library by being read off that DOM node by node, and leaves it
//! by being built up there again.

use vstd::prelude::*;
use vstd::utf8::encode_utf8;
use crate::error::{PageError, PageErrorModel};
use crate::splice::{plan_view, replace_elements, replaced};
use crate::text::{
    chars_of, equal_ignoring_ascii_case, first_line, matches_ignoring_ascii_case, strings_view,
    trim, trimmed_first_line,
};
use crate::tree::{
    Attribute, Attributes, DataModel, Node, NodeData, Tree, distinct_keys, elements,
    forest_view,
};

verus! {

#[verifier::external_type_specification]
#[verifier::external_body]
pub struct ExNodeRef(kuchikiki::NodeRef);

/// The longest text, in bytes, that is handed to the parser. The parser keeps
/// text in buffers whose length is a 32-bit number and whose room grows in
/// powers of two, and it fails where that number overflows. What it keeps of a
/// text takes at most three times the bytes of the text, and three times this
/// bound is below 2^31.
pub const MAX_MARKUP_BYTES: usize = 0x2000_0000;

/// Whether `text` is short enough for the parser: its UTF-8 form has at most
/// [`MAX_MARKUP_BYTES`] bytes.
pub open spec fn fits(text: Seq<char>) -> bool {
    encode_utf8(text).len() <= MAX_MARKUP_BYTES
}

/// Whether each of `texts` is short enough for the parser.
pub open spec fn all_fit(texts: Seq<Seq<char>>) -> bool {
    forall|i: int| 0 <= i < texts.len() ==> fits(#[trigger] texts[i])
}

/// The tree below a DOM node: what the node holds, and the trees below its
/// children in order. The contents of a `<template>` are no children and are
/// not part of it.
pub uninterp spec fn dom_tree(node: kuchikiki::NodeRef) -> Tree;

/// Whether a DOM node has no parent.
pub uninterp spec fn dom_detached(node: kuchikiki::NodeRef) -> bool;

/// The document that the HTML parser makes of a text.
pub uninterp spec fn html_document(text: Seq<char>) -> Tree;

/// The document that the HTML parser makes of a text read as the contents of
/// an element with the given namespace and name.
pub uninterp spec fn html_fragment(
    text: Seq<char>,
    context_namespace: Seq<char>,
    context_name: Seq<char>,
) -> Tree;

/// The text that the HTML serialiser writes for a tree.
pub uninterp spec fn html_text(tree: Tree) -> Seq<char>;

/// `kuchikiki::parse_html`, fed one text that is not too long. The parser
/// keeps no state between runs, so the document is a function of the text; its
/// root is new and has no parent.
#[verifier::external_body]
fn dom_parse_document(text: &str) -> (dom: kuchikiki::NodeRef)
    requires
        fits(text@),
    ensures
        dom_tree(dom) == html_document(text@),
        dom_detached(dom),
{
    kuchikiki::traits::TendrilSink::one(kuchikiki::parse_html(), text)
}

/// `kuchikiki::parse_fragment`, fed one text that is not too long, with a
/// context element that has no attributes. The result is a function of the
/// text and the context's name; its root is new and has no parent.
#[verifier::external_body]
fn dom_parse_fragment(text: &str, context_namespace: &str, context_name: &str) -> (dom:
    kuchikiki::NodeRef)
    requires
        fits(text@),
    ensures
        dom_tree(dom) == html_fragment(text@, context_namespace@, context_name@),
        dom_detached(dom),
{
    let context = markup5ever::QualName::new(
        None,
        markup5ever::Namespace::from(context_namespace),
        markup5ever::LocalName::from(context_name),
    );
    kuchikiki::traits::TendrilSink::one(kuchikiki::parse_fragment(context, Vec::new()), text)
}

/// `kuchikiki::Node::as_element`: the namespace, local name and attributes of
/// an element, the attributes in the order of the node's map, whose keys are
/// distinct; nothing for a node of another kind.
#[verifier::external_body]
fn dom_element(node: &kuchikiki::NodeRef) -> (data: Option<NodeData>)
    ensures
        data is Some <==> dom_tree(*node).data is Element,
        data is Some ==> data->0@ == dom_tree(*node).data,
{
    let element = node.as_element()?;
    let held = element.attributes.borrow();
    let items = held.map.iter().map(
        |(key, attribute)|
            Attribute {
                namespace: key.ns.to_string(),
                name: key.local.to_string(),
                value: attribute.value.clone(),
            },
    ).collect();
    let (namespace, name) = (element.name.ns.to_string(), element.name.local.to_string());
    Some(NodeData::Element { namespace, name, attributes: Attributes { items } })
}

/// `kuchikiki::Node::data` of a node that is no element: what the node holds.
/// A document fragment reads as a document.
#[verifier::external_body]
fn dom_leaf(node: &kuchikiki::NodeRef) -> (data: NodeData)
    requires
        !(dom_tree(*node).data is Element),
    ensures
        data@ == dom_tree(*node).data,
{
    match node.data() {
        kuchikiki::NodeData::Text(text) => NodeData::Text(text.borrow().clone()),
        kuchikiki::NodeData::Comment(text) => NodeData::Comment(text.borrow().clone()),
        kuchikiki::NodeData::ProcessingInstruction(held) => NodeData::Instruction {
            target: held.borrow().0.clone(),
            data: held.borrow().1.clone(),
        },
        kuchikiki::NodeData::Doctype(held) => NodeData::Doctype {
            name: held.name.clone(),
            public_id: held.public_id.clone(),
            system_id: held.system_id.clone(),
        },
        _ => NodeData::Document,
    }
}

/// `kuchikiki::NodeRef::children`: the node's children, first to last.
#[verifier::external_body]
fn dom_children(node: &kuchikiki::NodeRef) -> (children: Vec<kuchikiki::NodeRef>)
    ensures
        children@.len() == dom_tree(*node).children.len(),
        forall|i: int|
            0 <= i < children@.len() ==> dom_tree(#[trigger] children@[i]) == dom_tree(
                *node,
            ).children[i],
{
    node.children().collect()
}

/// `kuchikiki::NodeRef::new_document`: a new document node without children or
/// parent.
#[verifier::external_body]
fn dom_new_document() -> (dom: kuchikiki::NodeRef)
    ensures
        dom_tree(dom) == (Tree { data: DataModel::Document, children: Seq::empty() }),
        dom_detached(dom),
{
    kuchikiki::NodeRef::new_document()
}

/// `kuchikiki::NodeRef::new_doctype`: a new doctype node without children or
/// parent.
#[verifier::external_body]
fn dom_new_doctype(name: &str, public_id: &str, system_id: &str) -> (dom: kuchikiki::NodeRef)
    ensures
        dom_tree(dom) == (Tree {
            data: DataModel::Doctype { name: name@, public_id: public_id@, system_id: system_id@ },
            children: Seq::empty(),
        }),
        dom_detached(dom),
{
    kuchikiki::NodeRef::new_doctype(name, public_id, system_id)
}

/// `kuchikiki::NodeRef::new_element`: a new element without children or
/// parent. It keeps the attributes in the order given, as their keys are
/// distinct.
#[verifier::external_body]
fn dom_new_element(namespace: &str, name: &str, attributes: &Attributes) -> (dom:
    kuchikiki::NodeRef)
    requires
        distinct_keys(attributes@),
    ensures
        dom_tree(dom) == (Tree {
            data: DataModel::Element { namespace: namespace@, name: name@, attributes: attributes@ },
            children: Seq::empty(),
        }),
        dom_detached(dom),
{
    let qualified = markup5ever::QualName::new(None, namespace.into(), name.into());
    kuchikiki::NodeRef::new_element(
        qualified,
        attributes.items.iter().map(
            |item|
                (
                    kuchikiki::ExpandedName::new(item.namespace.as_str(), item.name.as_str()),
                    kuchikiki::Attribute { prefix: None, value: item.value.clone() },
                ),
        ),
    )
}

/// `kuchikiki::NodeRef::new_text`: a new text node without children or parent.
#[verifier::external_body]
fn dom_new_text(text: &str) -> (dom: kuchikiki::NodeRef)
    ensures
        dom_tree(dom) == (Tree { data: DataModel::Text(text@), children: Seq::empty() }),
        dom_detached(dom),
{
    kuchikiki::NodeRef::new_text(text)
}

/// `kuchikiki::NodeRef::new_comment`: a new comment node without children or
/// parent.
#[verifier::external_body]
fn dom_new_comment(text: &str) -> (dom: kuchikiki::NodeRef)
    ensures
        dom_tree(dom) == (Tree { data: DataModel::Comment(text@), children: Seq::empty() }),
        dom_detached(dom),
{
    kuchikiki::NodeRef::new_comment(text)
}

/// `kuchikiki::NodeRef::new_processing_instruction`: a new processing
/// instruction without children or parent.
#[verifier::external_body]
fn dom_new_instruction(target: &str, data: &str) -> (dom: kuchikiki::NodeRef)
    ensures
        dom_tree(dom) == (Tree {
            data: DataModel::Instruction { target: target@, data: data@ },
            children: Seq::empty(),
        }),
        dom_detached(dom),
{
    kuchikiki::NodeRef::new_processing_instruction(target, data)
}

/// `kuchikiki::NodeRef::append`: `child` becomes the last child of `parent`.
/// Both are roots that nothing else refers to, so no other tree changes and
/// `parent` stays a root.
#[verifier::external_body]
fn dom_with_child(parent: kuchikiki::NodeRef, child: kuchikiki::NodeRef) -> (dom:
    kuchikiki::NodeRef)
    requires
        dom_detached(parent),
        dom_detached(child),
    ensures
        dom_tree(dom) == (Tree {
            data: dom_tree(parent).data,
            children: dom_tree(parent).children.push(dom_tree(child)),
        }),
        dom_detached(dom),
{
    parent.append(child);
    parent
}

/// `to_string` of a `kuchikiki::NodeRef`: the node and what is below it in
/// HTML syntax. The text depends on the tree below the node alone.
#[verifier::external_body]
fn dom_to_string(node: &kuchikiki::NodeRef) -> (text: String)
    ensures
        text@ == html_text(dom_tree(*node)),
{
    node.to_string()
}

/// The tree below a DOM node, as a tree of the library.
fn read_dom(node: &kuchikiki::NodeRef) -> (read: Node)
    ensures
        read@ == dom_tree(*node),
    decreases dom_tree(*node),
{
    let data = match dom_element(node) {
        Some(data) => data,
        None => dom_leaf(node),
    };
    let handles = dom_children(node);
    let mut children: Vec<Node> = Vec::new();
    let mut i: usize = 0;
    while i < handles.len()
        invariant
            i <= handles.len(),
            children.len() == i,
            handles@.len() == dom_tree(*node).children.len(),
            forall|j: int|
                0 <= j < handles@.len() ==> dom_tree(#[trigger] handles@[j]) == dom_tree(
                    *node,
                ).children[j],
            forall|j: int| 0 <= j < i ==> children[j]@ == dom_tree(*node).children[j],
        decreases handles.len() - i,
    {
        assert(dom_tree(handles@[i as int]) == dom_tree(*node).children[i as int]);
        children.push(read_dom(&handles[i]));
        i += 1;
    }
    let read = Node { data, children };
    assert(read@.children =~= dom_tree(*node).children);
    read
}

/// A new DOM node that holds `data` and has no children.
fn build_data(data: &NodeData) -> (dom: kuchikiki::NodeRef)
    ensures
        dom_tree(dom) == (Tree { data: data@, children: Seq::empty() }),
        dom_detached(dom),
{
    match data {
        NodeData::Document => dom_new_document(),
        NodeData::Doctype { name, public_id, system_id } => dom_new_doctype(
            name.as_str(),
            public_id.as_str(),
            system_id.as_str(),
        ),
        NodeData::Element { namespace, name, attributes } => {
            proof {
                use_type_invariant(attributes);
            }
            dom_new_element(namespace.as_str(), name.as_str(), attributes)
        },
        NodeData::Text(text) => dom_new_text(text.as_str()),
        NodeData::Comment(text) => dom_new_comment(text.as_str()),
        NodeData::Instruction { target, data } => dom_new_instruction(
            target.as_str(),
            data.as_str(),
        ),
    }
}

/// A new DOM tree that equals `node`.
fn build_dom(node: &Node) -> (dom: kuchikiki::NodeRef)
    ensures
        dom_tree(dom) == node@,
        dom_detached(dom),
    decreases node,
{
    let mut dom = build_data(&node.data);
    let mut i: usize = 0;
    assert(node@.children.take(0) =~= Seq::<Tree>::empty());
    while i < node.children.len()
        invariant
            i <= node.children.len(),
            dom_detached(dom),
            dom_tree(dom) == (Tree { data: node.data@, children: node@.children.take(i as int) }),
        decreases node.children.len() - i,
    {
        let child = build_dom(&node.children[i]);
        dom = dom_with_child(dom, child);
        assert(node@.children.take(i + 1) =~= node@.children.take(i as int).push(
            node.children[i as int]@,
        ));
        i += 1;
    }
    assert(node@.children.take(node.children.len() as int) =~= node@.children);
    dom
}

/// Whether `text` is short enough for the parser.
pub fn text_fits(text: &str) -> (fitting: bool)
    ensures
        fitting == fits(text@),
{
    text.as_bytes().len() <= MAX_MARKUP_BYTES
}

/// Parses a whole HTML document. The result is a document node with the parsed
/// nodes below it. A text that is too long for the parser is an error.
pub fn parse_html(text: &str) -> (result: Result<Node, PageError>)
    ensures
        match result {
            Ok(document) => fits(text@) && document@ == html_document(text@),
            Err(error) => !fits(text@) && error@ == PageErrorModel::TooLong,
        },
{
    if !text_fits(text) {
        return Err(PageError::TooLong);
    }
    let dom = dom_parse_document(text);
    Ok(read_dom(&dom))
}

/// Parses `text` as the contents of an element with the given namespace and
/// name. The result is a document node; its one child is an `html` element
/// that holds the parsed nodes. A text that is too long for the parser is an
/// error.
pub fn parse_fragment(text: &str, context_namespace: &str, context_name: &str) -> (result: Result<
    Node,
    PageError,
>)
    ensures
        match result {
            Ok(document) => fits(text@) && document@ == html_fragment(
                text@,
                context_namespace@,
                context_name@,
            ),
            Err(error) => !fits(text@) && error@ == PageErrorModel::TooLong,
        },
{
    if !text_fits(text) {
        return Err(PageError::TooLong);
    }
    let dom = dom_parse_fragment(text, context_namespace, context_name);
    Ok(read_dom(&dom))
}

/// Writes `node` and everything below it in HTML syntax.
pub fn serialize(node: &Node) -> (text: String)
    ensures
        text@ == html_text(node@),
{
    let dom = build_dom(node);
    dom_to_string(&dom)
}

/// Whether `text` is a whole document: its first line, without the white space
/// around it, is `<!DOCTYPE html>` in any case of letters.
pub open spec fn is_whole_document(text: Seq<char>) -> bool {
    equal_ignoring_ascii_case(trim(first_line(text)), "<!DOCTYPE html>"@)
}

/// The document that the text of a page or component stands for: parsed as a
/// document where it is a whole one, else as the contents of a `div` without a
/// namespace.
pub open spec fn source_document(text: Seq<char>) -> Tree {
    if is_whole_document(text) {
        html_document(text)
    } else {
        html_fragment(text, Seq::empty(), "div"@)
    }
}

/// Whether `text` is a whole document.
pub fn whole_document(text: &str) -> (whole: bool)
    ensures
        whole == is_whole_document(text@),
{
    let chars = chars_of(text);
    let pattern = chars_of("<!DOCTYPE html>");
    let (start, stop) = trimmed_first_line(&chars);
    matches_ignoring_ascii_case(&chars, start, stop, &pattern)
}

/// Parses the text of a page or component. A text that is too long for the
/// parser is an error.
pub fn parse_source(text: &str) -> (result: Result<Node, PageError>)
    ensures
        match result {
            Ok(document) => fits(text@) && document@ == source_document(text@),
            Err(error) => !fits(text@) && error@ == PageErrorModel::TooLong,
        },
{
    if !text_fits(text) {
        return Err(PageError::TooLong);
    }
    if whole_document(text) {
        parse_html(text)
    } else {
        proof {
            reveal_strlit("");
            assert(""@ =~= Seq::<char>::empty());
        }
        parse_fragment(text, "", "div")
    }
}

/// The namespace of the elements of HTML.
pub open spec fn xhtml() -> Seq<char> {
    "http://www.w3.org/1999/xhtml"@
}

/// The nodes that `markup` stands for. The markup is parsed as the contents of
/// a `div` of HTML; the parser hands the parsed nodes over as the children of
/// a root element, the first child of the parsed document.
pub open spec fn fragment_nodes(markup: Seq<char>) -> Seq<Tree> {
    let parsed = html_fragment(markup, xhtml(), "div"@);
    if parsed.children.len() > 0 {
        parsed.children[0].children
    } else {
        Seq::empty()
    }
}

/// What each of `fragments` puts in the place of an element: the nodes that it
/// stands for.
pub open spec fn markup_plan(fragments: Seq<Seq<char>>) -> Seq<Seq<Tree>> {
    Seq::new(fragments.len(), |i: int| fragment_nodes(fragments[i]))
}

/// The nodes that `markup` stands for. A markup that is too long for the
/// parser is an error.
pub fn parse_nodes(markup: &str) -> (result: Result<Vec<Node>, PageError>)
    ensures
        match result {
            Ok(nodes) => fits(markup@) && forest_view(nodes@) == fragment_nodes(markup@),
            Err(error) => !fits(markup@) && error@ == PageErrorModel::TooLong,
        },
{
    let parsed = match parse_fragment(markup, "http://www.w3.org/1999/xhtml", "div") {
        Ok(parsed) => parsed,
        Err(error) => {
            return Err(error);
        },
    };
    let mut top = parsed.children;
    if top.len() > 0 {
        let ghost first = top[0]@;
        assert(first == forest_view(top@)[0]);
        let root = top.remove(0);
        Ok(root.children)
    } else {
        let nothing: Vec<Node> = Vec::new();
        assert(forest_view(nothing@) =~= Seq::<Tree>::empty());
        Ok(nothing)
    }
}

/// `document` with the nodes of the markup `fragments[i]` in the place of its
/// element number `i` that is called `tag`. Such an element inside another
/// goes with the outer one, and one without a fragment stays as it is. Where
/// each has a fragment and no fragment brings an element called `tag`, none is
/// left. A fragment that is too long for the parser is an error.
pub fn splice_markup(document: &Node, tag: &str, fragments: &Vec<String>) -> (result: Result<
    Node,
    PageError,
>)
    ensures
        match result {
            Ok(spliced) => {
                &&& all_fit(strings_view(fragments@))
                &&& spliced@ == replaced(document@, tag@, markup_plan(strings_view(fragments@)))
                &&& fragments.len() >= elements(document@.children, tag@).len() && (forall|
                    i: int,
                |
                    0 <= i < elements(document@.children, tag@).len() ==> elements(
                        #[trigger] markup_plan(strings_view(fragments@))[i],
                        tag@,
                    ).len() == 0) ==> elements(spliced@.children, tag@).len() == 0
            },
            Err(error) => !all_fit(strings_view(fragments@)) && error@ == PageErrorModel::TooLong,
        },
{
    let mut plan: Vec<Vec<Node>> = Vec::new();
    let mut i: usize = 0;
    while i < fragments.len()
        invariant
            i <= fragments.len(),
            plan.len() == i,
            forall|j: int| 0 <= j < i ==> fits(#[trigger] fragments[j]@),
            forall|j: int|
                0 <= j < i ==> forest_view(#[trigger] plan[j]@) == fragment_nodes(fragments[j]@),
        decreases fragments.len() - i,
    {
        match parse_nodes(fragments[i].as_str()) {
            Ok(nodes) => plan.push(nodes),
            Err(error) => {
                assert(!fits(strings_view(fragments@)[i as int]));
                return Err(error);
            },
        }
        i += 1;
    }
    assert(plan_view(plan@) =~= markup_plan(strings_view(fragments@)));
    assert forall|j: int| 0 <= j < strings_view(fragments@).len() implies fits(
        #[trigger] strings_view(fragments@)[j],
    ) by {
        assert(fits(fragments[j]@));
    }
    Ok(replace_elements(document, tag, plan))
}

} // verus!
