use htmlua_parser::config::Config;
use htmlua_parser::error::PageError;
use htmlua_parser::highlight::{chosen_syntax, code_block, known_theme, process_syntax_highlighting};
use htmlua_parser::html::{parse_html, parse_nodes, serialize, splice_markup};
use htmlua_parser::markdown::process_markdown;
use htmlua_parser::text::lines_with_endings;

#[test]
fn basic_markdown() {
    let page = r"
            <!DOCTYPE html>
            <html>
            <head>
                <title>Markdown Test</title>
            </head>
            <body>
                <h1>Hello World</h1>
                <div>
                    <markdown>
# This is a heading
This is a paragraph with **bold text** and *italic text*.

- Item 1
- Item 2
- Item 3
                    </markdown>
                </div>
            </body>
            </html>";
    let document = parse_html(page).unwrap();
    let d = process_markdown(document).unwrap();
    assert!(d.select_first("markdown").is_none());
    assert!(d.select_first("p").is_some());
    assert!(d.select_first("ul").is_some());
}

#[test]
fn markdown_is_rendered_in_place() {
    let page = "<!DOCTYPE html>\n<html><head></head><body><div><markdown>*hi*</markdown></div></body></html>";
    let d = process_markdown(parse_html(page).unwrap()).unwrap();
    assert_eq!(
        serialize(&d),
        "<!DOCTYPE html><html><head></head><body><div><p><em>hi</em></p>\n</div></body></html>"
    );
}

#[test]
fn markdown_extensions_are_on() {
    let page = "<!DOCTYPE html>\n<html><body><markdown>~~gone~~</markdown></body></html>";
    let d = process_markdown(parse_html(page).unwrap()).unwrap();
    assert_eq!(d.select_first("del").unwrap().text_contents(), "gone");
}

#[test]
fn basic_syntax_highlighting() {
    let page = r#"
            <!DOCTYPE html>
            <html>
            <head>
                <title>Syntax Highlighting Test</title>
            </head>
            <body>
                <h1>Code Example</h1>
                <syntaxhighlight lang="rust">
fn main() {
    println!("Hello, world!");
    let x = 42;
    let y = "test";
}
                </syntaxhighlight>
            </body>
            </html>"#;
    let document = parse_html(page).unwrap();
    let d = process_syntax_highlighting(document, &Config::default()).unwrap();
    assert!(d.select_first("syntaxhighlight").is_none());
    assert!(d.select_first("pre").is_some());
    assert!(d.select_first("code").is_some());
    let pre = d.select_first("pre").unwrap();
    assert_eq!(pre.attribute("data-lang").map(|s| s.as_str()), Some("rust"));
    assert!(pre.attribute("class").unwrap().contains("syntax-highlight"));
}

#[test]
fn highlighting_keeps_the_text_of_the_code() {
    let page = "<!DOCTYPE html>\n<html><body><syntaxhighlight lang=\"rs\">let x = 1;\nlet y = 2;</syntaxhighlight></body></html>";
    let d = process_syntax_highlighting(parse_html(page).unwrap(), &Config::default()).unwrap();
    assert_eq!(d.select_first("code").unwrap().text_contents(), "let x = 1;\nlet y = 2;");
}

#[test]
fn region_without_lang_is_plain_text() {
    let page = "<!DOCTYPE html>\n<html><body><syntaxhighlight>plain</syntaxhighlight></body></html>";
    let d = process_syntax_highlighting(parse_html(page).unwrap(), &Config::default()).unwrap();
    let pre = d.select_first("pre").unwrap();
    assert_eq!(pre.attribute("data-lang").unwrap(), "text");
    assert_eq!(pre.text_contents(), "plain");
}

#[test]
fn unknown_theme_is_a_highlight_error() {
    let page = "<!DOCTYPE html>\n<html><body><syntaxhighlight theme=\"no-such-theme\">x</syntaxhighlight></body></html>";
    match process_syntax_highlighting(parse_html(page).unwrap(), &Config::default()) {
        Err(PageError::Highlight { message }) => assert_eq!(message, "unknown theme no-such-theme"),
        _ => panic!("expected a highlight error"),
    }
}

#[test]
fn page_without_code_is_unchanged() {
    let page = "<!DOCTYPE html>\n<html><head></head><body><p>plain</p></body></html>";
    let d = process_syntax_highlighting(parse_html(page).unwrap(), &Config::default()).unwrap();
    assert_eq!(serialize(&d), "<!DOCTYPE html><html><head></head><body><p>plain</p></body></html>");
}

#[test]
fn code_block_wraps_the_lines() {
    let lines = vec!["<span>a</span>".to_string(), "<span>b</span>".to_string()];
    assert_eq!(
        code_block("x", &lines),
        "<pre class=\"syntax-highlight\" data-lang=\"x\"><code><span>a</span><span>b</span></code></pre>"
    );
}

#[test]
fn lines_keep_their_endings() {
    assert_eq!(lines_with_endings("foo\nbar\nbaz"), vec!["foo\n", "bar\n", "baz"]);
    assert_eq!(lines_with_endings("a\n\nb\n"), vec!["a\n", "\n", "b\n"]);
    assert!(lines_with_endings("").is_empty());
}

#[test]
fn fragments_go_to_their_own_regions() {
    let page = "<!DOCTYPE html>\n<html><head></head><body><x>1</x><p><x>2</x></p></body></html>";
    let document = parse_html(page).unwrap();
    let fragments = vec!["<i>a</i>".to_string(), "<b>b</b>".to_string()];
    let d = splice_markup(&document, "x", &fragments).unwrap();
    assert_eq!(
        serialize(&d),
        "<!DOCTYPE html><html><head></head><body><i>a</i><p><b>b</b></p></body></html>"
    );
}

#[test]
fn markdown_that_writes_a_markdown_element_leaves_it() {
    let page = "<!DOCTYPE html>\n<html><body><markdown>&lt;markdown&gt;x&lt;/markdown&gt;</markdown></body></html>";
    let d = process_markdown(parse_html(page).unwrap()).unwrap();
    let left = d.select_first("markdown").unwrap();
    assert_eq!(left.text_contents(), "x");
}

#[test]
fn markdown_element_without_text_at_its_start_holds_the_empty_text() {
    let page = "<!DOCTYPE html>\n<html><head></head><body><div id=\"d\"><markdown></markdown><p>k</p></div><markdown><b>x</b>*y*</markdown></body></html>";
    let d = process_markdown(parse_html(page).unwrap()).unwrap();
    assert!(d.select_first("markdown").is_none());
    assert_eq!(d.select_first("p").unwrap().text_contents(), "k");
    assert_eq!(
        serialize(&d),
        "<!DOCTYPE html><html><head></head><body><div id=\"d\"><p>k</p></div></body></html>"
    );
}

#[test]
fn only_the_text_at_the_start_of_a_region_is_rendered() {
    let page = "<!DOCTYPE html>\n<html><head></head><body><markdown>*a*<b>x</b></markdown></body></html>";
    let d = process_markdown(parse_html(page).unwrap()).unwrap();
    assert_eq!(
        serialize(&d),
        "<!DOCTYPE html><html><head></head><body><p><em>a</em></p>\n</body></html>"
    );
}

#[test]
fn rendered_markdown_stands_below_the_parent_of_the_region() {
    let page = "<!DOCTYPE html>\n<html><head></head><body><div id=\"d\"><markdown>**b** and *i*</markdown></div></body></html>";
    let d = process_markdown(parse_html(page).unwrap()).unwrap();
    let parent = d.select_first_by_id("d").unwrap();
    let paragraph = &parent.children[0];
    assert!(paragraph.is_named("p"));
    assert_eq!(paragraph.select_first("strong").unwrap().text_contents(), "b");
    assert_eq!(paragraph.select_first("em").unwrap().text_contents(), "i");
    assert!(d.select_first("markdown").is_none());
}

#[test]
fn code_element_without_text_at_its_start_holds_no_code() {
    let page = "<!DOCTYPE html>\n<html><head></head><body><syntaxhighlight lang=\"rust\"></syntaxhighlight><p>k</p></body></html>";
    let d = process_syntax_highlighting(parse_html(page).unwrap(), &Config::default()).unwrap();
    assert!(d.select_first("syntaxhighlight").is_none());
    assert_eq!(d.select_first("p").unwrap().text_contents(), "k");
    assert_eq!(
        serialize(&d),
        "<!DOCTYPE html><html><head></head><body><pre class=\"syntax-highlight\" data-lang=\"rust\"><code></code></pre><p>k</p></body></html>"
    );
}

#[test]
fn code_block_stands_below_the_parent_of_the_region() {
    let page = "<!DOCTYPE html>\n<html><head></head><body><div id=\"d\"><syntaxhighlight>plain</syntaxhighlight></div></body></html>";
    let d = process_syntax_highlighting(parse_html(page).unwrap(), &Config::default()).unwrap();
    let parent = d.select_first_by_id("d").unwrap();
    assert_eq!(parent.children.len(), 1);
    assert!(parent.children[0].is_named("pre"));
}

#[test]
fn parse_nodes_hands_over_the_nodes_of_the_markup() {
    let nodes = parse_nodes("<i>a</i>tail<!-- c -->").unwrap();
    assert_eq!(nodes.len(), 3);
    assert!(nodes[0].is_named("i"));
    assert_eq!(nodes[1].text_contents(), "tail");
    assert!(parse_nodes("").unwrap().is_empty());
}

#[test]
fn syntax_is_chosen_by_extension_then_name_then_plain_text() {
    let syntaxes = syntect::parsing::SyntaxSet::load_defaults_newlines();
    let rust = syntaxes.find_syntax_by_extension("rs");
    let ruby = syntaxes.find_syntax_by_name("Ruby");
    let plain = syntaxes.find_syntax_by_name("Plain Text");
    assert_eq!(chosen_syntax(rust, ruby, plain).unwrap().name, "Rust");
    assert_eq!(chosen_syntax(None, ruby, plain).unwrap().name, "Ruby");
    assert_eq!(chosen_syntax(None, None, plain).unwrap().name, "Plain Text");
    match chosen_syntax(None, None, None) {
        Err(PageError::Highlight { message }) => assert_eq!(message, "no syntax for plain text"),
        _ => panic!("expected a highlight error"),
    }
}

#[test]
fn theme_that_was_not_found_is_an_error() {
    let themes = syntect::highlighting::ThemeSet::load_defaults();
    let found = themes.themes.get("base16-ocean.dark");
    assert!(known_theme(found, "base16-ocean.dark").is_ok());
    match known_theme(None, "no-such-theme") {
        Err(PageError::Highlight { message }) => assert_eq!(message, "unknown theme no-such-theme"),
        _ => panic!("expected a highlight error"),
    }
}
