use htmlua_parser::footnote::{definition_node, generate_footnotes, reference_node, splice_footnotes};
use htmlua_parser::html::{parse_html, serialize};
use htmlua_parser::text::decimal_string;
use htmlua_parser::tree::Node;

#[test]
fn footnotes() {
    let page = r"
            <!DOCTYPE html>
            <html>
            <head>
                <title>Basic HTML Page</title>
            </head>
            <body>
                <div>
                    <p>asdf</p>
                    <p>asdf<footnote>um actually</footnote></p>
                    <p>asdf</p>
                    <p>asdf<footnote>no</footnote></p>
                </div>
                <div>
                <footnotecontainer></footnotecontainer>
                </div>
                </body>
                </html>";
    let document = parse_html(page).unwrap();
    let d = generate_footnotes(document).unwrap();
    let sup1 = d.select_first_by_id("ft-sup-1").unwrap();
    assert_eq!(sup1.attribute("title").unwrap(), "um actually");
    assert_eq!(sup1.text_contents(), "1");

    let sup2 = d.select_first_by_id("ft-sup-2").unwrap();
    assert_eq!(sup2.attribute("title").unwrap(), "no");
    assert_eq!(sup2.text_contents(), "2");

    let ft_text_1 = d.select_first_by_id("ft-text-1").unwrap();
    assert!(ft_text_1.text_contents().contains("um actually"));

    let ft_text_2 = d.select_first_by_id("ft-text-2").unwrap();
    assert!(ft_text_2.text_contents().contains("no"));

    assert!(d.select_first("footnote").is_none());
    assert!(d.select_first("footnotecontainer").is_none());
}

#[test]
fn notes_stand_in_the_order_of_their_markers() {
    let page = "<!DOCTYPE html>\n<html><head></head><body><div><p>a<footnote>one</footnote></p></div><footnote>two</footnote><footnotecontainer></footnotecontainer></body></html>";
    let d = generate_footnotes(parse_html(page).unwrap()).unwrap();
    assert_eq!(
        serialize(&d),
        "<!DOCTYPE html><html><head></head><body><div><p>a<a href=\"#ft-text-1\"><sup id=\"ft-sup-1\" title=\"one\">1</sup></a></p></div><a href=\"#ft-text-2\"><sup id=\"ft-sup-2\" title=\"two\">2</sup></a><p id=\"ft-text-1\"><a href=\"#ft-sup-1\">1:</a> one</p><p id=\"ft-text-2\"><a href=\"#ft-sup-2\">2:</a> two</p></body></html>"
    );
}

#[test]
fn page_without_container_is_unchanged() {
    let page = "<!DOCTYPE html>\n<html><head></head><body><p>a<footnote>one</footnote></p></body></html>";
    let d = generate_footnotes(parse_html(page).unwrap()).unwrap();
    assert_eq!(
        serialize(&d),
        "<!DOCTYPE html><html><head></head><body><p>a<footnote>one</footnote></p></body></html>"
    );
}

#[test]
fn only_the_first_container_takes_the_notes() {
    let page = "<!DOCTYPE html>\n<html><head></head><body><footnote>x</footnote><footnotecontainer></footnotecontainer><footnotecontainer></footnotecontainer></body></html>";
    let d = generate_footnotes(parse_html(page).unwrap()).unwrap();
    assert_eq!(
        serialize(&d),
        "<!DOCTYPE html><html><head></head><body><a href=\"#ft-text-1\"><sup id=\"ft-sup-1\" title=\"x\">1</sup></a><p id=\"ft-text-1\"><a href=\"#ft-sup-1\">1:</a> x</p><footnotecontainer></footnotecontainer></body></html>"
    );
}

#[test]
fn reference_and_note_have_their_number() {
    assert_eq!(
        serialize(&reference_node(12, "t")),
        "<a href=\"#ft-text-12\"><sup id=\"ft-sup-12\" title=\"t\">12</sup></a>"
    );
    assert_eq!(
        serialize(&definition_node(3, "t")),
        "<p id=\"ft-text-3\"><a href=\"#ft-sup-3\">3:</a> t</p>"
    );
}

#[test]
fn text_of_a_marker_is_taken_as_text() {
    let page = "<!DOCTYPE html>\n<html><head></head><body><p>x<footnote>say \"hi\" &lt;now&gt;</footnote></p><footnotecontainer></footnotecontainer></body></html>";
    let d = generate_footnotes(parse_html(page).unwrap()).unwrap();
    let sup = d.select_first_by_id("ft-sup-1").unwrap();
    assert_eq!(sup.attribute("title").unwrap(), "say \"hi\" <now>");
    assert_eq!(sup.text_contents(), "1");
    let note = d.select_first_by_id("ft-text-1").unwrap();
    assert_eq!(note.text_contents(), "1: say \"hi\" <now>");
    assert!(d.select_first("now").is_none());
    assert_eq!(
        serialize(&d),
        "<!DOCTYPE html><html><head></head><body><p>x<a href=\"#ft-text-1\"><sup id=\"ft-sup-1\" title=\"say &quot;hi&quot; <now>\">1</sup></a></p><p id=\"ft-text-1\"><a href=\"#ft-sup-1\">1:</a> say \"hi\" &lt;now&gt;</p></body></html>"
    );
}

#[test]
fn decimal_string_writes_digits() {
    assert_eq!(decimal_string(0), "0");
    assert_eq!(decimal_string(7), "7");
    assert_eq!(decimal_string(10), "10");
    assert_eq!(decimal_string(4096), "4096");
}

#[test]
fn marker_without_a_reference_stays() {
    let page = "<!DOCTYPE html>\n<html><head></head><body><footnote>a</footnote><footnote>b</footnote><footnotecontainer></footnotecontainer></body></html>";
    let document = parse_html(page).unwrap();
    let references = vec![vec![Node::text("1".to_string())]];
    let d = splice_footnotes(&document, references, &Vec::new());
    assert_eq!(
        serialize(&d),
        "<!DOCTYPE html><html><head></head><body>1<footnote>b</footnote></body></html>"
    );
}

#[test]
fn references_go_to_their_own_markers() {
    let page = "<!DOCTYPE html>\n<html><head></head><body><footnote>a<footnote>b</footnote></footnote><footnotecontainer><footnote>c</footnote></footnotecontainer><footnote>d</footnote></body></html>";
    let document = parse_html(page).unwrap();
    let references = vec![
        vec![Node::text("1".to_string())],
        vec![Node::text("2".to_string())],
        vec![Node::text("3".to_string())],
        vec![Node::text("4".to_string())],
    ];
    let definitions = vec![Node::text("[notes]".to_string())];
    let d = splice_footnotes(&document, references, &definitions);
    assert_eq!(serialize(&d), "<!DOCTYPE html><html><head></head><body>1[notes]4</body></html>");
}
