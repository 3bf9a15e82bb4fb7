//! Highlighting the code of a page.
//!
//! A `syntaxhighlight` element holds code: the text at its start. Its `lang`
//! names the language (`text` where it has none) and its `theme` the theme
//! (the configured one where it has none). The code is highlighted line by
//! line and stands in the element's place as a `pre` block.

use vstd::prelude::*;
use vstd::string::StringExecFns;
use crate::config::Config;
use crate::error::{PageError, PageErrorModel};
use crate::html::{markup_plan, splice_markup};
use crate::splice::{lemma_replace_nothing, padded, replaced};
use crate::text::{concat, concat_strings, lines_with_endings, split_lines, strings_view};
use crate::tree::{Node, Tree, borrowed_view, elements, select_all};

verus! {

#[verifier::external_type_specification]
#[verifier::external_body]
pub struct ExSyntaxSet(syntect::parsing::SyntaxSet);

#[verifier::external_type_specification]
#[verifier::external_body]
pub struct ExSyntaxReference(syntect::parsing::SyntaxReference);

#[verifier::external_type_specification]
#[verifier::external_body]
pub struct ExThemeSet(syntect::highlighting::ThemeSet);

#[verifier::external_type_specification]
#[verifier::external_body]
pub struct ExTheme(syntect::highlighting::Theme);

#[verifier::external_type_specification]
#[verifier::external_body]
pub struct ExStyle(syntect::highlighting::Style);

#[verifier::external_type_specification]
#[verifier::external_body]
pub struct ExHighlightLines<'a>(syntect::easy::HighlightLines<'a>);

#[verifier::external_type_specification]
#[verifier::external_body]
pub struct ExLoadingError(syntect::LoadingError);

#[verifier::external_type_specification]
#[verifier::external_body]
pub struct ExSyntectError(syntect::Error);

/// `syntect::parsing::SyntaxSet::load_defaults_newlines`: the syntaxes that
/// come with the highlighter.
#[verifier::external_body]
fn load_syntaxes() -> (syntaxes: syntect::parsing::SyntaxSet) {
    syntect::parsing::SyntaxSet::load_defaults_newlines()
}

/// `syntect::highlighting::ThemeSet::load_defaults`: the themes that come with
/// the highlighter.
#[verifier::external_body]
fn load_themes() -> (themes: syntect::highlighting::ThemeSet) {
    syntect::highlighting::ThemeSet::load_defaults()
}

/// `syntect::highlighting::ThemeSet::add_from_folder`: reads the themes of a
/// directory into the set. Nothing is claimed of the outcome or of the set
/// afterwards: both depend on what is on disk.
#[verifier::external_body]
fn add_themes_from_folder(themes: &mut syntect::highlighting::ThemeSet, folder: &str) -> (outcome:
    Result<(), syntect::LoadingError>) {
    themes.add_from_folder(folder)
}

/// `BTreeMap::get` on the `themes` of a `syntect::highlighting::ThemeSet`: the
/// theme of that name, where the set has one.
#[verifier::external_body]
fn find_theme<'a>(themes: &'a syntect::highlighting::ThemeSet, name: &str) -> (theme: Option<
    &'a syntect::highlighting::Theme,
>) {
    themes.themes.get(name)
}

/// `syntect::parsing::SyntaxSet::find_syntax_by_extension`.
#[verifier::external_body]
fn find_syntax_by_extension<'a>(
    syntaxes: &'a syntect::parsing::SyntaxSet,
    extension: &str,
) -> (syntax:
    Option<&'a syntect::parsing::SyntaxReference>) {
    syntaxes.find_syntax_by_extension(extension)
}

/// `syntect::parsing::SyntaxSet::find_syntax_by_name`.
#[verifier::external_body]
fn find_syntax_by_name<'a>(syntaxes: &'a syntect::parsing::SyntaxSet, name: &str) -> (syntax:
    Option<&'a syntect::parsing::SyntaxReference>) {
    syntaxes.find_syntax_by_name(name)
}

/// `syntect::easy::HighlightLines::new`: a highlighter at the start of a text.
#[verifier::external_body]
fn new_highlighter<'a>(
    syntax: &syntect::parsing::SyntaxReference,
    theme: &'a syntect::highlighting::Theme,
) -> (highlighter: syntect::easy::HighlightLines<'a>) {
    syntect::easy::HighlightLines::new(syntax, theme)
}

/// `syntect::easy::HighlightLines::highlight_line`: the styled pieces of the
/// next line. Nothing is claimed of them. `syntaxes` has to be the set that
/// the highlighter's syntax was found in: with another set the highlighter may
/// fail. The one caller, [`highlight_code`], looks the syntax up in the set
/// that it hands on.
#[verifier::external_body]
fn highlight_line<'b>(
    highlighter: &mut syntect::easy::HighlightLines<'_>,
    line: &'b str,
    syntaxes: &syntect::parsing::SyntaxSet,
) -> (pieces: Result<Vec<(syntect::highlighting::Style, &'b str)>, syntect::Error>) {
    highlighter.highlight_line(line, syntaxes)
}

/// `syntect::html::styled_line_to_highlighted_html` without background
/// colours: the markup of a styled line. Nothing is claimed of it.
#[verifier::external_body]
fn line_markup(pieces: &Vec<(syntect::highlighting::Style, &str)>) -> (html: Result<
    String,
    syntect::Error,
>) {
    syntect::html::styled_line_to_highlighted_html(
        &pieces[..],
        syntect::html::IncludeBackground::No,
    )
}

/// `to_string` of a `syntect::Error`: the error in words.
#[verifier::external_body]
fn highlight_error_text(error: &syntect::Error) -> (text: String) {
    error.to_string()
}

/// The markup of a block of highlighted code in the language `language`.
pub open spec fn code_block_markup(language: Seq<char>, lines: Seq<Seq<char>>) -> Seq<char> {
    "<pre class=\"syntax-highlight\" data-lang=\""@ + language + "\">"@ + "<code>"@ + concat(lines)
        + "</code></pre>"@
}

/// The language of a region: its `lang`, or `text`.
pub open spec fn language_of(region: Tree) -> Seq<char> {
    match region.attribute("lang"@) {
        Some(language) => language,
        None => "text"@,
    }
}

/// The theme of a region: its `theme`, or `default_theme`.
pub open spec fn theme_of(region: Tree, default_theme: Seq<char>) -> Seq<char> {
    match region.attribute("theme"@) {
        Some(theme) => theme,
        None => default_theme,
    }
}

/// The markup of each of `regions`, given the highlighted lines of each.
pub open spec fn code_blocks(regions: Seq<Tree>, highlighted: Seq<Seq<Seq<char>>>) -> Seq<
    Seq<char>,
> {
    Seq::new(regions.len(), |i: int| code_block_markup(language_of(regions[i]), highlighted[i]))
}

/// `tree` with the nodes of the block of each of its `syntaxhighlight`
/// elements in the element's place, given the highlighted lines of each.
pub open spec fn highlight_pass(tree: Tree, lines: Seq<Seq<Seq<char>>>) -> Tree {
    replaced(
        tree,
        "syntaxhighlight"@,
        markup_plan(code_blocks(elements(tree.children, "syntaxhighlight"@), lines)),
    )
}

/// The markup of a block of highlighted code.
pub fn code_block(language: &str, lines: &Vec<String>) -> (html: String)
    ensures
        html@ == code_block_markup(language@, strings_view(lines@)),
{
    let mut html = "<pre class=\"syntax-highlight\" data-lang=\"".to_owned();
    html.append(language);
    html.append("\">");
    html.append("<code>");
    html.append(concat_strings(lines).as_str());
    html.append("</code></pre>");
    html
}

/// The language of `region`: its `lang`, or `text`.
pub fn region_language(region: &Node) -> (language: &str)
    ensures
        language@ == language_of(region@),
{
    match region.attribute("lang") {
        Some(language) => language.as_str(),
        None => "text",
    }
}

/// The theme of `region`: its `theme`, or the theme that `config` names.
pub fn region_theme<'a>(region: &'a Node, config: &'a Config) -> (theme: &'a str)
    ensures
        theme@ == theme_of(region@, config.syntax_highlighting.default_theme@),
{
    match region.attribute("theme") {
        Some(theme) => theme.as_str(),
        None => config.syntax_highlighting.default_theme.as_str(),
    }
}

/// The syntax for a language, given what the lookups found: the syntax for the
/// language as a file extension, else the syntax of that name, else the syntax
/// of plain text. Without any of them there is an error.
pub fn chosen_syntax<'a>(
    by_extension: Option<&'a syntect::parsing::SyntaxReference>,
    by_name: Option<&'a syntect::parsing::SyntaxReference>,
    plain: Option<&'a syntect::parsing::SyntaxReference>,
) -> (result: Result<&'a syntect::parsing::SyntaxReference, PageError>)
    ensures
        by_extension is Some ==> (result matches Ok(syntax) && syntax == by_extension->0),
        by_extension is None && by_name is Some ==> (result matches Ok(syntax) && syntax
            == by_name->0),
        by_extension is None && by_name is None && plain is Some ==> (result matches Ok(syntax)
            && syntax == plain->0),
        by_extension is None && by_name is None && plain is None ==> (result matches Err(error)
            && error@ == (PageErrorModel::Highlight { message: "no syntax for plain text"@ })),
{
    match by_extension {
        Some(syntax) => Ok(syntax),
        None => match by_name {
            Some(syntax) => Ok(syntax),
            None => match plain {
                Some(syntax) => Ok(syntax),
                None => Err(
                    PageError::Highlight { message: "no syntax for plain text".to_owned() },
                ),
            },
        },
    }
}

/// The theme called `theme_name`, given what the lookup found. A theme that
/// the set does not hold is an error.
pub fn known_theme<'a>(
    found: Option<&'a syntect::highlighting::Theme>,
    theme_name: &str,
) -> (result: Result<&'a syntect::highlighting::Theme, PageError>)
    ensures
        match found {
            Some(theme) => result matches Ok(chosen) && chosen == theme,
            None => result matches Err(error) && error@ == (PageErrorModel::Highlight {
                message: "unknown theme "@ + theme_name@,
            }),
        },
{
    match found {
        Some(theme) => Ok(theme),
        None => Err(PageError::Highlight { message: "unknown theme ".to_owned().concat(theme_name) }),
    }
}

/// A failure of the highlighter.
fn highlight_failure(error: &syntect::Error) -> (failure: PageError)
    ensures
        failure is Highlight,
{
    PageError::Highlight { message: highlight_error_text(error) }
}

/// Highlights `code` line by line and returns the markup of its lines. The
/// syntax is the one for the file extension `language`, else the one called
/// `language`, else plain text.
fn highlight_code(
    syntaxes: &syntect::parsing::SyntaxSet,
    themes: &syntect::highlighting::ThemeSet,
    language: &str,
    theme_name: &str,
    code: &str,
) -> (result: Result<Vec<String>, PageError>)
    ensures
        match result {
            Ok(lines) => lines.len() == split_lines(code@).len(),
            Err(error) => error is Highlight,
        },
{
    let syntax = match chosen_syntax(
        find_syntax_by_extension(syntaxes, language),
        find_syntax_by_name(syntaxes, language),
        find_syntax_by_name(syntaxes, "Plain Text"),
    ) {
        Ok(syntax) => syntax,
        Err(error) => {
            return Err(error);
        },
    };
    let theme = match known_theme(find_theme(themes, theme_name), theme_name) {
        Ok(theme) => theme,
        Err(error) => {
            return Err(error);
        },
    };
    let mut highlighter = new_highlighter(syntax, theme);
    let lines = lines_with_endings(code);
    assert(strings_view(lines@).len() == lines.len());
    let mut highlighted: Vec<String> = Vec::new();
    let mut i: usize = 0;
    while i < lines.len()
        invariant
            i <= lines.len(),
            highlighted.len() == i,
        decreases lines.len() - i,
    {
        let pieces = match highlight_line(&mut highlighter, lines[i].as_str(), syntaxes) {
            Ok(pieces) => pieces,
            Err(error) => {
                return Err(highlight_failure(&error));
            },
        };
        match line_markup(&pieces) {
            Ok(html) => highlighted.push(html),
            Err(error) => {
                return Err(highlight_failure(&error));
            },
        }
        i += 1;
    }
    Ok(highlighted)
}

/// Highlights the code of `document`, the text at the start of each of its
/// `syntaxhighlight` elements, and puts the nodes of the block in the
/// element's place. A document without such an element comes back as it is,
/// and no theme is loaded for it. The first region that fails, or whose theme
/// is not known, ends the pass; so does a block that is too long for the
/// parser.
pub fn process_syntax_highlighting(document: Node, config: &Config) -> (result: Result<
    Node,
    PageError,
>)
    ensures
        match result {
            Ok(highlighted) => exists|lines: Seq<Seq<Seq<char>>>|
                {
                    &&& lines.len() == elements(document@.children, "syntaxhighlight"@).len()
                    &&& forall|i: int|
                        0 <= i < lines.len() ==> (#[trigger] lines[i]).len() == split_lines(
                            elements(document@.children, "syntaxhighlight"@)[i].leading_text(),
                        ).len()
                    &&& highlighted@ == #[trigger] highlight_pass(document@, lines)
                    &&& (forall|i: int|
                        0 <= i < lines.len() ==> elements(
                            #[trigger] markup_plan(
                                code_blocks(
                                    elements(document@.children, "syntaxhighlight"@),
                                    lines,
                                ),
                            )[i],
                            "syntaxhighlight"@,
                        ).len() == 0) ==> elements(
                        highlighted@.children,
                        "syntaxhighlight"@,
                    ).len() == 0
                },
            Err(error) => (error is Highlight || error is TooLong) && elements(
                document@.children,
                "syntaxhighlight"@,
            ).len() > 0,
        },
        elements(document@.children, "syntaxhighlight"@).len() == 0 ==> result is Ok
            && result->Ok_0@ == document@,
{
    let regions = select_all(&document.children, "syntaxhighlight");
    let ghost found = elements(document@.children, "syntaxhighlight"@);
    if regions.len() == 0 {
        proof {
            lemma_replace_nothing(
                document@.children,
                "syntaxhighlight"@,
                padded(markup_plan(code_blocks(found, Seq::empty())), found),
                0,
            );
            assert(document@ == highlight_pass(document@, Seq::empty()));
        }
        return Ok(document);
    }
    let syntaxes = load_syntaxes();
    let mut themes = load_themes();
    if config.syntax_highlighting.load_custom_themes {
        let _ = add_themes_from_folder(&mut themes, config.paths.themes.as_str());
    }
    let mut fragments: Vec<String> = Vec::new();
    let ghost mut lines: Seq<Seq<Seq<char>>> = Seq::empty();
    let mut i: usize = 0;
    while i < regions.len()
        invariant
            i <= regions.len(),
            found == borrowed_view(regions@),
            found == elements(document@.children, "syntaxhighlight"@),
            regions.len() > 0,
            fragments.len() == i,
            lines.len() == i,
            forall|j: int|
                0 <= j < i ==> (#[trigger] lines[j]).len() == split_lines(
                    found[j].leading_text(),
                ).len(),
            forall|j: int|
                0 <= j < i ==> (#[trigger] fragments[j])@ == code_block_markup(
                    language_of(found[j]),
                    lines[j],
                ),
        decreases regions.len() - i,
    {
        let block = regions[i];
        assert(block@ == found[i as int]);
        let language = region_language(block);
        let theme_name = region_theme(block, config);
        let code = block.leading_text();
        match highlight_code(&syntaxes, &themes, language, theme_name, code) {
            Err(error) => {
                return Err(error);
            },
            Ok(highlighted) => {
                fragments.push(code_block(language, &highlighted));
                proof {
                    lines = lines.push(strings_view(highlighted@));
                }
            },
        }
        i += 1;
    }
    assert(strings_view(fragments@) =~= code_blocks(found, lines));
    match splice_markup(&document, "syntaxhighlight", &fragments) {
        Ok(highlighted) => {
            assert(highlighted@ == highlight_pass(document@, lines));
            Ok(highlighted)
        },
        Err(error) => Err(error),
    }
}

} // verus!
