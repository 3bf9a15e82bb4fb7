use htmlua_parser::error::PageError;
use htmlua_parser::html::{parse_html, serialize};
use htmlua_parser::resolve::expand_template;
use htmlua_parser::store::Source;

const ROOT: &str = "tests/components";

fn component(path: &str, source: &str) -> Source {
    Source { path: format!("{}/{}", ROOT, path), text: source.to_string() }
}

fn components() -> Vec<Source> {
    vec![
        component("comp1.html", "<span id=\"inc1\">included1</span>\n"),
        component("comp2_level1.html", "<div><include path=\"comp2_level2.html\"></include></div>\n"),
        component("comp2_level2.html", "<span>included_twice</span>\n"),
        component("multi1_1.html", "<span id=\"inc1\">included1</span>\n"),
        component("multi1_2.html", "<span id=\"inc2\">included2</span>\n"),
        component("multi1_3.html", "<span id=\"inc3\">included3</span>\n"),
        component(
            "with_include1.html",
            "<div><includeelement name=\"el1\"></includeelement></div>\n<p><includeelement name=\"el2\"></includeelement></p>\n",
        ),
    ]
}

#[test]
fn render_basic_include() {
    let page = r#"
            <!DOCTYPE html>
            <html>
            <head>
                <title>Basic HTML Page</title>
            </head>
            <body>
                <h1>Hello World</h1>
                <p>This is a paragraph.</p>
                <include path="comp1.html" />
                <span><lua>
                    htmlua.println("Test from Lua!")
                </lua></span>
            </body>
            </html>"#;
    let document = parse_html(page).unwrap();
    let d = expand_template(document, &components(), ROOT, None).unwrap();
    let text = d.select_first("span").unwrap().text_contents();
    assert_eq!(text, "included1");
    assert!(d.select_first("include").is_none());
}

#[test]
fn lib_basic_include() {
    let page = r#"
            <!DOCTYPE html>
            <html>
            <head>
                <title>Basic HTML Page</title>
            </head>
            <body>
                <h1>Hello World</h1>
                <p>This is a paragraph.</p>
                <include path="comp1.html" />
                <span><lua>
                    htmlua.println("Test from Lua!")
                </lua></span>
            </body>
            </html>"#;
    let document = parse_html(page).unwrap();
    let d = expand_template(document, &components(), ROOT, None).unwrap();
    let text = d.select_first("span").unwrap().text_contents();
    assert_eq!(text, "included1");
    assert!(d.select_first("include").is_none());
}

#[test]
fn multiple_include() {
    let page = r#"
            <!DOCTYPE html>
            <html>
            <head>
                <title>Basic HTML Page</title>
            </head>
            <body>
                <h1>Hello World</h1>
                <p>This is a paragraph.</p>
                <include path="multi1_1.html"></include>
                <include path="multi1_2.html"></include>
                <include path="multi1_3.html"></include>
            </body>
            </html>"#;
    let document = parse_html(page).unwrap();
    let d = expand_template(document, &components(), ROOT, None).unwrap();
    let text = d.select_first_by_id("inc1").unwrap().text_contents();
    assert_eq!(text, "included1");
    let text = d.select_first_by_id("inc2").unwrap().text_contents();
    assert_eq!(text, "included2");
    let text = d.select_first_by_id("inc3").unwrap().text_contents();
    assert_eq!(text, "included3");
    assert!(d.select_first("include").is_none());
}

#[test]
fn multiple_include_keeps_the_order_of_the_markers() {
    let page = "<!DOCTYPE html>\n<html><head></head><body><include path=\"multi1_1.html\"></include><include path=\"multi1_2.html\"></include><include path=\"multi1_3.html\"></include></body></html>";
    let d = expand_template(parse_html(page).unwrap(), &components(), ROOT, None).unwrap();
    assert_eq!(
        serialize(&d),
        "<!DOCTYPE html><html><head></head><body><span id=\"inc1\">included1</span>\n<span id=\"inc2\">included2</span>\n<span id=\"inc3\">included3</span>\n</body></html>"
    );
}

#[test]
fn render_recursive_include() {
    let page = r#"
            <!DOCTYPE html>
            <html>
                <head>
                    <title>Basic HTML Page</title>
                </head>
            <body>
                <h1>Hello World</h1>
                <include path="comp2_level1.html" />
            </body>
            </html>"#;
    let document = parse_html(page).unwrap();
    let d = expand_template(document, &components(), ROOT, None).unwrap();
    let text = d.select_first("span").unwrap().text_contents();
    assert_eq!(text, "included_twice");
    assert!(d.select_first("include").is_none());
}

#[test]
fn lib_recursive_include() {
    let page = r#"
            <!DOCTYPE html>
            <html>
                <head>
                    <title>Basic HTML Page</title>
                </head>
            <body>
                <h1>Hello World</h1>
                <include path="comp2_level1.html" />
            </body>
            </html>"#;
    let document = parse_html(page).unwrap();
    let d = expand_template(document, &components(), ROOT, None).unwrap();
    let text = d.select_first("span").unwrap().text_contents();
    assert_eq!(text, "included_twice");
    assert!(d.select_first("include").is_none());
}

#[test]
fn export_element_include() {
    let page = r#"
            <!DOCTYPE html>
            <html>
                <head>
                    <title>Basic HTML Page</title>
                </head>
            <body>
                <h1>Hello World</h1>
                <include path="with_include1.html">
                    <exportelement class="el1"><span id="ta">element 1</span></exportelement>
                    <exportelement class="el2"><span id="tb">element 2</span></exportelement>
                </include>
            </body>
            </html>"#;
    let document = parse_html(page).unwrap();
    let d = expand_template(document, &components(), ROOT, None).unwrap();
    let text = d.select_first_by_id("ta").unwrap().text_contents();
    assert_eq!(text, "element 1");
    let text = d.select_first_by_id("tb").unwrap().text_contents();
    assert_eq!(text, "element 2");
    assert!(d.select_first("exportelement").is_none());
    assert!(d.select_first("includeelement").is_none());
}

#[test]
fn slot_content_stands_where_the_placeholder_stood() {
    let page = "<!DOCTYPE html>\n<html><head></head><body><include path=\"with_include1.html\"><exportelement class=\"el1\"><b>one</b></exportelement><exportelement class=\"el2\">two</exportelement></include></body></html>";
    let d = expand_template(parse_html(page).unwrap(), &components(), ROOT, None).unwrap();
    assert_eq!(
        serialize(&d),
        "<!DOCTYPE html><html><head></head><body><div><b>one</b></div>\n<p>two</p>\n</body></html>"
    );
}

#[test]
fn missing_slot_is_an_error() {
    let page = "<!DOCTYPE html>\n<html><body><include path=\"with_include1.html\"><exportelement class=\"el1\">x</exportelement></include></body></html>";
    match expand_template(parse_html(page).unwrap(), &components(), ROOT, None) {
        Err(PageError::SlotNotFound { name }) => assert_eq!(name, "el2"),
        _ => panic!("expected a missing slot"),
    }
}

#[test]
fn missing_component_is_an_error() {
    let page = "<!DOCTYPE html>\n<html><body><include path=\"nowhere.html\"></include></body></html>";
    match expand_template(parse_html(page).unwrap(), &components(), ROOT, None) {
        Err(PageError::ComponentLoad { path }) => assert_eq!(path, "tests/components/nowhere.html"),
        _ => panic!("expected a load error"),
    }
}

#[test]
fn component_that_takes_itself_in_is_an_error() {
    let looped = vec![component("loop.html", "<include path=\"loop.html\"></include>")];
    let page = "<!DOCTYPE html>\n<html><body><include path=\"loop.html\"></include></body></html>";
    assert!(matches!(
        expand_template(parse_html(page).unwrap(), &looped, ROOT, None),
        Err(PageError::IncludeDepth)
    ));
}

#[test]
fn marker_without_path_is_removed() {
    let page = "<!DOCTYPE html>\n<html><head></head><body><include>gone</include>kept</body></html>";
    let d = expand_template(parse_html(page).unwrap(), &components(), ROOT, None).unwrap();
    assert_eq!(serialize(&d), "<!DOCTYPE html><html><head></head><body>kept</body></html>");
}

#[test]
fn export_outside_an_include_stays() {
    let page = "<!DOCTYPE html>\n<html><head></head><body><exportelement class=\"x\">stray</exportelement></body></html>";
    let d = expand_template(parse_html(page).unwrap(), &components(), ROOT, None).unwrap();
    assert_eq!(d.select_first("exportelement").unwrap().text_contents(), "stray");
}

#[test]
fn include_inside_slot_content_is_resolved_in_the_component() {
    let page = "<!DOCTYPE html>\n<html><head></head><body><include path=\"with_include1.html\"><exportelement class=\"el1\"><include path=\"comp1.html\"></include></exportelement><exportelement class=\"el2\">two</exportelement></include></body></html>";
    let d = expand_template(parse_html(page).unwrap(), &components(), ROOT, None).unwrap();
    assert_eq!(
        serialize(&d),
        "<!DOCTYPE html><html><head></head><body><div><span id=\"inc1\">included1</span>\n</div>\n<p>two</p>\n</body></html>"
    );
}

#[test]
fn placeholder_in_a_page_without_caller_stays() {
    let page = "<!DOCTYPE html>\n<html><head></head><body><includeelement name=\"x\"></includeelement></body></html>";
    let d = expand_template(parse_html(page).unwrap(), &components(), ROOT, None).unwrap();
    assert!(d.select_first("includeelement").is_some());
}

#[test]
fn path_from_the_root_of_the_file_system_is_taken_as_it_is() {
    let sources = vec![Source { path: "/abs/c.html".to_string(), text: "<i>abs</i>".to_string() }];
    let page = "<!DOCTYPE html>\n<html><head></head><body><include path=\"/abs/c.html\"></include></body></html>";
    let d = expand_template(parse_html(page).unwrap(), &sources, ROOT, None).unwrap();
    assert_eq!(serialize(&d), "<!DOCTYPE html><html><head></head><body><i>abs</i></body></html>");
}

#[test]
fn whole_document_component_hands_over_its_head_and_body() {
    let sources = vec![Source {
        path: "tests/components/whole.html".to_string(),
        text: "<!DOCTYPE html>\n<html><body><p>x</p></body></html>".to_string(),
    }];
    let page = "<!DOCTYPE html>\n<html><head></head><body><include path=\"whole.html\"></include></body></html>";
    let d = expand_template(parse_html(page).unwrap(), &sources, ROOT, None).unwrap();
    assert_eq!(
        serialize(&d),
        "<!DOCTYPE html><html><head></head><body><head></head><body><p>x</p></body></body></html>"
    );
}

#[test]
fn placeholders_of_one_name_all_take_the_content() {
    let sources = vec![Source {
        path: "tests/components/twice.html".to_string(),
        text: "<i><includeelement name=\"x\"></includeelement></i><b><includeelement name=\"x\"></includeelement></b><u><includeelement></includeelement></u>".to_string(),
    }];
    let page = "<!DOCTYPE html>\n<html><head></head><body><include path=\"twice.html\"><exportelement class=\"x\">c</exportelement></include></body></html>";
    let d = expand_template(parse_html(page).unwrap(), &sources, ROOT, None).unwrap();
    assert_eq!(
        serialize(&d),
        "<!DOCTYPE html><html><head></head><body><i>c</i><b>c</b><u></u></body></html>"
    );
}

#[test]
fn components_stand_where_their_markers_stood_among_other_nodes() {
    let page = "<!DOCTYPE html>\n<html><head></head><body>a<div>b<include path=\"multi1_1.html\"></include>c<p><include path=\"multi1_2.html\"></include></p></div>d<include path=\"multi1_3.html\"></include>e</body></html>";
    let d = expand_template(parse_html(page).unwrap(), &components(), ROOT, None).unwrap();
    assert_eq!(
        serialize(&d),
        "<!DOCTYPE html><html><head></head><body>a<div>b<span id=\"inc1\">included1</span>\nc<p><span id=\"inc2\">included2</span>\n</p></div>d<span id=\"inc3\">included3</span>\ne</body></html>"
    );
}
