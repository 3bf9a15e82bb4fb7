use htmlua_parser::html::{parse_fragment, parse_html, serialize};
use htmlua_parser::tree::{Attributes, Node, NodeData};

#[test]
fn parse_then_select_finds_the_first_element() {
    let document = parse_html("<!DOCTYPE html><html><body><span id=\"a\">one</span><span>two</span></body></html>").unwrap();
    let span = document.select_first("span").unwrap();
    assert_eq!(span.text_contents(), "one");
    assert_eq!(span.attribute("id").unwrap(), "a");
    assert!(document.select_first("table").is_none());
    assert_eq!(document.select("span").len(), 2);
}

#[test]
fn serialize_writes_the_document_back() {
    let document = parse_html("<!DOCTYPE html><html><head></head><body><p class=\"x\">a &amp; b</p></body></html>").unwrap();
    assert_eq!(
        serialize(&document),
        "<!DOCTYPE html><html><head></head><body><p class=\"x\">a &amp; b</p></body></html>"
    );
}

#[test]
fn fragment_has_an_html_element_at_its_root() {
    let document = parse_fragment("<b>x</b>tail", "", "div").unwrap();
    let html = document.select_first("html").unwrap();
    assert_eq!(html.children.len(), 2);
    assert_eq!(serialize(&document), "<html><b>x</b>tail</html>");
}

#[test]
fn insert_replaces_a_value_in_place_or_appends() {
    let mut attributes = Attributes::new();
    attributes.insert("id", "a".to_string());
    attributes.insert("class", "k".to_string());
    attributes.insert("id", "b".to_string());
    assert_eq!(attributes.len(), 2);
    assert_eq!(attributes.entry(0).name, "id");
    assert_eq!(attributes.entry(0).value, "b");
    assert_eq!(attributes.get("class").unwrap(), "k");
    assert!(attributes.get("title").is_none());
    let element = Node {
        data: NodeData::Element {
            namespace: "http://www.w3.org/1999/xhtml".to_string(),
            name: "p".to_string(),
            attributes,
        },
        children: vec![Node::text("x < y".to_string())],
    };
    assert_eq!(serialize(&element), "<p id=\"b\" class=\"k\">x &lt; y</p>");
    assert!(element.is_named("p"));
    assert!(!element.is_named("P"));
}

#[test]
fn every_kind_of_node_is_written_out() {
    let document = Node {
        data: NodeData::Document,
        children: vec![
            Node {
                data: NodeData::Doctype {
                    name: "html".to_string(),
                    public_id: String::new(),
                    system_id: String::new(),
                },
                children: vec![],
            },
            Node { data: NodeData::Comment(" c ".to_string()), children: vec![] },
            Node {
                data: NodeData::Instruction { target: "t".to_string(), data: "d".to_string() },
                children: vec![],
            },
            Node::text("x".to_string()),
        ],
    };
    assert_eq!(serialize(&document), "<!DOCTYPE html><!-- c --><?t d>x");
}

#[test]
fn parsed_nodes_read_back_as_they_were_written() {
    let document = parse_html("<!DOCTYPE html><!-- note --><html lang=\"en\"><body><svg viewBox=\"0 0 1 1\"></svg></body></html>").unwrap();
    assert_eq!(
        serialize(&document),
        "<!DOCTYPE html><!-- note --><html lang=\"en\"><head></head><body><svg viewBox=\"0 0 1 1\"></svg></body></html>"
    );
    let svg = document.select_first("svg").unwrap();
    assert_eq!(svg.attribute("viewBox").unwrap(), "0 0 1 1");
}

#[test]
fn text_contents_joins_the_text_in_document_order() {
    let document = parse_html("<!DOCTYPE html><html><body><p>a<b>b<i>c</i></b>d</p></body></html>").unwrap();
    assert_eq!(document.select_first("p").unwrap().text_contents(), "abcd");
}

#[test]
fn select_first_by_id_takes_the_first_in_document_order() {
    let document = parse_html("<!DOCTYPE html><html><body><div><p id=\"x\">1</p></div><p id=\"x\">2</p></body></html>").unwrap();
    assert_eq!(document.select_first_by_id("x").unwrap().text_contents(), "1");
    assert!(document.select_first_by_id("y").is_none());
}
