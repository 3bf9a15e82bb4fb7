use htmlua_parser::config::Config;
use htmlua_parser::error::PageError;
use htmlua_parser::html::{
    parse_html, parse_source, serialize, text_fits, whole_document, MAX_MARKUP_BYTES,
};
use htmlua_parser::serve::serve_content;
use htmlua_parser::store::{find_source, join, request_page, Source};

fn source(path: &str, text: &str) -> Source {
    Source { path: path.to_string(), text: text.to_string() }
}

fn site() -> Vec<Source> {
    vec![
        source(
            "/var/www/htmlua/pages/index.html",
            "<!DOCTYPE html>\n<html><head></head><body><include path=\"hello.html\"></include><markdown>*m*</markdown><lua>htmlua.print(\"out\")</lua></body></html>",
        ),
        source("/var/www/htmlua/components/hello.html", "<b>hello</b>"),
        source(
            "/var/www/htmlua/pages/late.html",
            "<!DOCTYPE html>\n<html><head></head><body><markdown>&lt;lua&gt;htmlua.print(7)&lt;/lua&gt;</markdown></body></html>",
        ),
    ]
}

#[test]
fn page_is_compiled_in_the_order_of_the_passes() {
    let html = serve_content("/index.html", &Config::default(), &site()).unwrap();
    assert_eq!(
        html,
        "<!DOCTYPE html><html><head></head><body><b>hello</b><p><em>m</em></p>\nout</body></html>"
    );
}

#[test]
fn scripts_run_after_markdown_is_rendered() {
    let html = serve_content("/late.html", &Config::default(), &site()).unwrap();
    assert_eq!(
        html,
        "<!DOCTYPE html><html><head></head><body><p>7</p>\n</body></html>"
    );
}

#[test]
fn request_without_separator_is_invalid() {
    assert!(matches!(
        serve_content("index.html", &Config::default(), &site()),
        Err(PageError::InvalidRequest)
    ));
    assert!(matches!(serve_content("", &Config::default(), &site()), Err(PageError::InvalidRequest)));
    assert!(matches!(
        serve_content("index.html", &Config::default(), &Vec::new()),
        Err(PageError::InvalidRequest)
    ));
}

#[test]
fn missing_page_is_reported_by_its_path() {
    match serve_content("/nowhere.html", &Config::default(), &site()) {
        Err(PageError::ComponentLoad { path }) => assert_eq!(path, "/var/www/htmlua/pages/nowhere.html"),
        _ => panic!("expected a load error"),
    }
}

#[test]
fn missing_component_is_reported_by_its_path() {
    let pages = vec![source(
        "/var/www/htmlua/pages/index.html",
        "<!DOCTYPE html>\n<html><body><include path=\"gone.html\"></include></body></html>",
    )];
    match serve_content("/index.html", &Config::default(), &pages) {
        Err(PageError::ComponentLoad { path }) => assert_eq!(path, "/var/www/htmlua/components/gone.html"),
        _ => panic!("expected a load error"),
    }
}

#[test]
fn request_page_strips_the_separators() {
    assert_eq!(request_page("/a/b.html"), Some("a/b.html".to_string()));
    assert_eq!(request_page("//a"), Some("a".to_string()));
    assert_eq!(request_page("/"), Some("".to_string()));
    assert_eq!(request_page("a/b"), None);
    assert_eq!(request_page(""), None);
}

#[test]
fn join_puts_one_separator_between() {
    assert_eq!(join("/root", "a.html"), "/root/a.html");
    assert_eq!(join("/root/", "a.html"), "/root/a.html");
    assert_eq!(join("/root", "/etc/passwd"), "/etc/passwd");
    assert_eq!(join("", "a.html"), "a.html");
    assert_eq!(join("/root", ""), "/root/");
}

#[test]
fn find_source_takes_the_first_of_a_path() {
    let sources = vec![source("a", "1"), source("b", "2"), source("a", "3")];
    assert_eq!(find_source(&sources, "a").unwrap(), "1");
    assert_eq!(find_source(&sources, "b").unwrap(), "2");
    assert!(find_source(&sources, "c").is_none());
}

#[test]
fn doctype_on_the_first_line_makes_a_whole_document() {
    assert!(whole_document("<!DOCTYPE html>\n<html></html>"));
    assert!(whole_document("  <!doctype HTML>  \r\n<html></html>"));
    assert!(whole_document("<!DOCTYPE html>"));
    assert!(!whole_document("\n<!DOCTYPE html>\n"));
    assert!(!whole_document("<!DOCTYPE html><html></html>"));
    assert!(!whole_document("<p>x</p>"));
    assert!(!whole_document(""));
}

#[test]
fn parse_source_reads_a_fragment_as_the_contents_of_a_div() {
    assert_eq!(serialize(&parse_source("<td>x</td>").unwrap()), "<html><td>x</td></html>");
    assert_eq!(
        serialize(&parse_source("<!DOCTYPE html>\n<p>x</p>").unwrap()),
        "<!DOCTYPE html><html><head></head><body><p>x</p></body></html>"
    );
}

#[test]
fn errors_are_described_in_words() {
    assert_eq!(PageError::InvalidRequest.describe(), "request path does not start with /");
    assert_eq!(PageError::ComponentLoad { path: "a/b".to_string() }.describe(), "cannot load a/b");
    assert_eq!(PageError::Parse { missing: "html".to_string() }.describe(), "markup has no element html");
    assert_eq!(
        PageError::SlotNotFound { name: "el1".to_string() }.describe(),
        "no exportelement for slot el1"
    );
    assert_eq!(PageError::Script { message: "m".to_string() }.describe(), "m");
    assert_eq!(PageError::Highlight { message: "m".to_string() }.describe(), "highlighting failed: m");
    assert_eq!(PageError::IncludeDepth.describe(), "components are nested too deeply");
}

#[test]
fn text_that_is_too_long_for_the_parser_is_an_error() {
    assert_eq!(MAX_MARKUP_BYTES, 512 * 1024 * 1024);
    assert!(text_fits("<p>short</p>"));
    let long = "a".repeat(MAX_MARKUP_BYTES + 1);
    assert!(!text_fits(&long));
    assert!(matches!(parse_html(&long), Err(PageError::TooLong)));
    assert!(matches!(parse_source(&long), Err(PageError::TooLong)));
    assert_eq!(PageError::TooLong.describe(), "text is too long to parse");
    let edge = &long[1..];
    assert!(text_fits(edge));
}
