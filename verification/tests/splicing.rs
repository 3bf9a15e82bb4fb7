use htmlua_parser::html::{parse_html, serialize};
use htmlua_parser::splice::{replace_elements, strip_forest};
use htmlua_parser::tree::{copy_forest, select_all, Node};

#[test]
fn replace_elements_puts_each_entry_in_its_place() {
    let page = "<!DOCTYPE html>\n<html><head></head><body><x>1</x><p><x>2<x>3</x></x></p><x>4</x></body></html>";
    let document = parse_html(page).unwrap();
    let plan = vec![
        vec![Node::text("a".to_string()), Node::text("b".to_string())],
        vec![],
        vec![Node::text("unused".to_string())],
        vec![Node::text("d".to_string())],
    ];
    let out = replace_elements(&document, "x", plan);
    assert_eq!(serialize(&out), "<!DOCTYPE html><html><head></head><body>ab<p></p>d</body></html>");
}

#[test]
fn replace_elements_keeps_a_document_without_markers() {
    let page = "<!DOCTYPE html>\n<html><head></head><body><p>x</p></body></html>";
    let document = parse_html(page).unwrap();
    let out = replace_elements(&document, "x", vec![vec![Node::text("a".to_string())]]);
    assert_eq!(serialize(&out), serialize(&document));
}

#[test]
fn strip_forest_removes_every_element_of_the_name() {
    let page = "<!DOCTYPE html>\n<html><head></head><body><x>1</x><p>a<x>2</x>b</p></body></html>";
    let document = parse_html(page).unwrap();
    let stripped = Node { data: document.data.copy(), children: strip_forest(&document.children, "x") };
    assert_eq!(serialize(&stripped), "<!DOCTYPE html><html><head></head><body><p>ab</p></body></html>");
}

#[test]
fn select_all_lists_elements_in_document_order() {
    let page = "<!DOCTYPE html>\n<html><head></head><body><x id=\"1\"><x id=\"2\"></x></x><p><x id=\"3\"></x></p></body></html>";
    let document = parse_html(page).unwrap();
    let ids: Vec<String> =
        select_all(&document.children, "x").iter().map(|n| n.attribute("id").unwrap().clone()).collect();
    assert_eq!(ids, vec!["1", "2", "3"]);
}

#[test]
fn copies_are_equal_to_what_was_copied() {
    let page = "<!DOCTYPE html>\n<html><head><!-- c --></head><body class=\"k\"><p>x</p></body></html>";
    let document = parse_html(page).unwrap();
    let copied = Node { data: document.data.copy(), children: copy_forest(&document.children) };
    assert_eq!(serialize(&copied), serialize(&document));
    assert_eq!(serialize(&document.copy()), serialize(&document));
}

#[test]
fn leading_text_is_the_text_of_a_first_text_child() {
    let page = "<!DOCTYPE html>\n<html><head></head><body><x id=\"1\"></x><x id=\"2\">t<b>u</b></x><x id=\"3\"><b>u</b>t</x></body></html>";
    let document = parse_html(page).unwrap();
    let texts: Vec<String> =
        select_all(&document.children, "x").iter().map(|n| n.leading_text().to_string()).collect();
    assert_eq!(texts, vec!["", "t", ""]);
}
