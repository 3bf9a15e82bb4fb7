use htmlua_parser::error::PageError;
use htmlua_parser::html::{parse_html, serialize};
use htmlua_parser::resolve::expand_template;
use htmlua_parser::store::Source;
use htmlua_parser::script::{
    execute_lua, run_script, run_scripts, script_sources, splice_script_outputs, write_line, write_text,
};

#[test]
fn render_basic_lua() {
    let page = r#"
            <!DOCTYPE html>
            <html>
            <head>
                <title>Basic HTML Page</title>
            </head>
            <body>
                <h1>Hello World</h1>
                <p>This is a paragraph.</p>
                <span><lua>
                    htmlua.println("Test from Lua!")
                </lua></span>
            </body>
            </html>"#;
    let document = parse_html(page).unwrap();
    let d = execute_lua(document).unwrap();
    let text = d.select_first("span").unwrap().text_contents();
    assert_eq!(text, "Test from Lua!\n");
    assert!(d.select_first("lua").is_none());
}

#[test]
fn lib_basic_lua() {
    let page = r#"
            <!DOCTYPE html>
            <html>
            <head>
                <title>Basic HTML Page</title>
            </head>
            <body>
                <h1>Hello World</h1>
                <p>This is a paragraph.</p>
                <span><lua>
                    htmlua.println("Test from Lua!")
                </lua></span>
            </body>
            </html>"#;
    let document = parse_html(page).unwrap();
    let d = execute_lua(document).unwrap();
    let text = d.select_first("span").unwrap().text_contents();
    assert_eq!(text, "Test from Lua!\n");
    assert!(d.select_first("lua").is_none());
}

#[test]
fn multiple_lua() {
    let page = r#"
            <!DOCTYPE html>
            <html>
            <head>
                <title>Basic HTML Page</title>
            </head>
            <body>
                <h1>Hello World</h1>
                <p>This is a paragraph.</p>
                <span id="ta"><lua>
                    htmlua.println("Test from Lua!")
                </lua></span>
                <div>
                    <span id="tb"><lua>htmlua.println("test 2")</lua></span>
                </div>
            </body>
            </html>"#;
    let document = parse_html(page).unwrap();
    let d = execute_lua(document).unwrap();
    let text = d.select_first_by_id("ta").unwrap().text_contents();
    assert_eq!(text, "Test from Lua!\n");
    let text = d.select_first_by_id("tb").unwrap().text_contents();
    assert_eq!(text, "test 2\n");
    assert!(d.select_first("lua").is_none());
}

#[test]
fn basic_lua_include() {
    let page = r#"
            <!DOCTYPE html>
            <html>
            <head>
                <title>Basic HTML Page</title>
            </head>
            <body>
                <h1>Hello World</h1>
                <p>This is a paragraph.</p>
                <span><lua>
                    htmlua.println("Test from Lua!")
                </lua></span>
                <include path="comp1.html" />
            </body>
            </html>"#;
    let components = vec![Source {
        path: "tests/components/comp1.html".to_string(),
        text: "<span id=\"inc1\">included1</span>\n".to_string(),
    }];
    let document = parse_html(page).unwrap();
    let d = execute_lua(expand_template(document, &components, "tests/components", None).unwrap()).unwrap();
    let text = d.select_first("span").unwrap().text_contents();
    println!("{}", serialize(&d));
    assert_eq!(text, "Test from Lua!\n");
    assert!(d.select_first("lua").is_none());
    let text = d.select_first_by_id("inc1").unwrap().text_contents();
    assert_eq!(text, "included1");
    assert!(d.select_first("include").is_none());
}

#[test]
fn print_writes_no_line_feed() {
    assert_eq!(run_script("htmlua.print(\"a\") htmlua.print(\"b\")").unwrap(), "ab");
    assert_eq!(run_script("htmlua.println(\"a\") htmlua.print(\"b\")").unwrap(), "a\nb");
    assert_eq!(run_script("").unwrap(), "");
}

#[test]
fn write_text_and_write_line_append() {
    let mut buffer = String::from("x");
    write_text(&mut buffer, "yz");
    assert_eq!(buffer, "xyz");
    write_line(&mut buffer, "end");
    assert_eq!(buffer, "xyzend\n");
}

#[test]
fn scripts_share_no_state() {
    let page = "<!DOCTYPE html>\n<html><head></head><body><lua>x = 5 htmlua.print(tostring(x))</lua>|<lua>htmlua.print(tostring(x))</lua></body></html>";
    let d = execute_lua(parse_html(page).unwrap()).unwrap();
    assert_eq!(serialize(&d), "<!DOCTYPE html><html><head></head><body>5|nil</body></html>");
}

#[test]
fn failing_script_is_a_script_error() {
    let page = "<!DOCTYPE html>\n<html><body><lua>error(\"boom\")</lua></body></html>";
    match execute_lua(parse_html(page).unwrap()) {
        Err(PageError::Script { message }) => {
            assert!(message.starts_with("Failed to execute Lua: "));
            assert!(message.contains("boom"));
        }
        _ => panic!("expected a script error"),
    }
}

#[test]
fn page_without_scripts_is_unchanged() {
    let page = "<!DOCTYPE html>\n<html><head></head><body><p>plain</p></body></html>";
    let d = execute_lua(parse_html(page).unwrap()).unwrap();
    assert_eq!(serialize(&d), serialize(&parse_html(page).unwrap()));
}

#[test]
fn outputs_go_to_their_own_regions() {
    let page = "<!DOCTYPE html>\n<html><head></head><body><lua>a</lua><p><lua>b<lua>c</lua></lua></p><lua>d</lua></body></html>";
    let document = parse_html(page).unwrap();
    let sources = script_sources(&document);
    assert_eq!(sources, vec!["a".to_string(), "b".to_string(), "c".to_string(), "d".to_string()]);
    let outputs: Vec<String> = vec!["1".into(), "2".into(), "3".into(), "4".into()];
    let spliced = splice_script_outputs(&document, &outputs);
    assert_eq!(serialize(&spliced), "<!DOCTYPE html><html><head></head><body>1<p>2</p>4</body></html>");
}

#[test]
fn regions_before_a_failure_stay_replaced() {
    let page = "<!DOCTYPE html>\n<html><head></head><body><lua>htmlua.print(1)</lua><lua>error(2)</lua><lua>htmlua.print(3)</lua></body></html>";
    let mut document = parse_html(page).unwrap();
    assert!(matches!(run_scripts(&mut document), Err(PageError::Script { .. })));
    assert_eq!(
        serialize(&document),
        "<!DOCTYPE html><html><head></head><body>1<lua>error(2)</lua><lua>htmlua.print(3)</lua></body></html>"
    );
}

#[test]
fn region_without_an_output_stays() {
    let page = "<!DOCTYPE html>\n<html><head></head><body><lua>a</lua><lua>b</lua></body></html>";
    let document = parse_html(page).unwrap();
    let spliced = splice_script_outputs(&document, &vec!["1".to_string()]);
    assert_eq!(serialize(&spliced), "<!DOCTYPE html><html><head></head><body>1<lua>b</lua></body></html>");
    let spliced = splice_script_outputs(&document, &vec!["1".into(), "2".into(), "3".into()]);
    assert_eq!(serialize(&spliced), "<!DOCTYPE html><html><head></head><body>12</body></html>");
}

#[test]
fn lua_element_without_text_at_its_start_holds_the_empty_script() {
    let page = "<!DOCTYPE html>\n<html><head></head><body><span id=\"s\"><lua></lua></span><lua><i>x</i>error(1)</lua><lua><lua>htmlua.print(2)</lua></lua></body></html>";
    let d = execute_lua(parse_html(page).unwrap()).unwrap();
    assert!(d.select_first("lua").is_none());
    assert_eq!(d.select_first_by_id("s").unwrap().text_contents(), "");
    assert_eq!(
        serialize(&d),
        "<!DOCTYPE html><html><head></head><body><span id=\"s\"></span></body></html>"
    );
}

#[test]
fn only_the_text_at_the_start_of_a_region_is_run() {
    let page = "<!DOCTYPE html>\n<html><head></head><body><lua>htmlua.print(1)<i>error(2)</i></lua></body></html>";
    let d = execute_lua(parse_html(page).unwrap()).unwrap();
    assert_eq!(serialize(&d), "<!DOCTYPE html><html><head></head><body>1</body></html>");
}

#[test]
fn table_holds_println_and_print_that_write_to_the_buffer() {
    let lua = mlua::Lua::new();
    let stdout = std::rc::Rc::new(std::cell::RefCell::new(String::from("q")));
    let table = htmlua_parser::script::create_htmlua_stdlib(&lua, &stdout).unwrap();
    assert_eq!(*stdout.borrow(), "q");
    let println: mlua::Function = table.get("println").unwrap();
    let print: mlua::Function = table.get("print").unwrap();
    println.call::<()>("a").unwrap();
    print.call::<()>("b").unwrap();
    assert_eq!(*stdout.borrow(), "qa\nb");
    let names: Vec<String> =
        table.pairs::<String, mlua::Function>().map(|pair| pair.unwrap().0).collect();
    assert_eq!(names.len(), 2);
    assert!(names.contains(&"println".to_string()));
    assert!(names.contains(&"print".to_string()));
}
