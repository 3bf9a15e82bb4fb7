//! Rendering the markdown of a page.
//!
//! A `markdown` element holds markdown: the text at its start. The markup that
//! it renders to is parsed, and the parsed nodes stand in the element's place.

use vstd::prelude::*;
use crate::error::{PageError, PageErrorModel};
use crate::html::{all_fit, markup_plan, splice_markup};
use crate::splice::replaced;
use crate::text::strings_view;
use crate::tree::{Node, Tree, borrowed_view, elements, select_all};

verus! {

/// The markup that markdown text renders to, with every extension of the
/// renderer switched on.
pub uninterp spec fn markdown_html(text: Seq<char>) -> Seq<char>;

/// `pulldown_cmark::html::push_html` on a `pulldown_cmark::Parser` with
/// `pulldown_cmark::Options::all`: renders markdown text to markup. The
/// renderer reads nothing but the text.
#[verifier::external_body]
fn render_markdown(text: &str) -> (html: String)
    ensures
        html@ == markdown_html(text@),
{
    let parser = pulldown_cmark::Parser::new_ext(text, pulldown_cmark::Options::all());
    let mut html = String::new();
    pulldown_cmark::html::push_html(&mut html, parser);
    html
}

/// The markup that the text at the start of each of `regions` renders to.
pub open spec fn rendered(regions: Seq<Tree>) -> Seq<Seq<char>> {
    Seq::new(regions.len(), |i: int| markdown_html(regions[i].leading_text()))
}

/// `tree` with the nodes of the rendered markdown of each of its `markdown`
/// elements in the element's place.
pub open spec fn markdown_pass(tree: Tree) -> Tree {
    replaced(tree, "markdown"@, markup_plan(rendered(elements(tree.children, "markdown"@))))
}

/// Renders the markdown of `document`, the text at the start of each of its
/// `markdown` elements, and puts the nodes of the rendered markup in the
/// element's place, below the element's parent. Where no rendered text brings
/// a `markdown` element of its own, none is left. A rendered text that is too
/// long for the parser is an error, and the only one.
pub fn process_markdown(document: Node) -> (result: Result<Node, PageError>)
    ensures
        match result {
            Ok(rendered_document) => {
                &&& all_fit(rendered(elements(document@.children, "markdown"@)))
                &&& rendered_document@ == markdown_pass(document@)
                &&& (forall|i: int|
                    0 <= i < elements(document@.children, "markdown"@).len() ==> elements(
                        #[trigger] markup_plan(
                            rendered(elements(document@.children, "markdown"@)),
                        )[i],
                        "markdown"@,
                    ).len() == 0) ==> elements(rendered_document@.children, "markdown"@).len()
                    == 0
            },
            Err(error) => !all_fit(rendered(elements(document@.children, "markdown"@)))
                && error@ == PageErrorModel::TooLong,
        },
{
    let regions = select_all(&document.children, "markdown");
    let mut fragments: Vec<String> = Vec::new();
    let mut i: usize = 0;
    while i < regions.len()
        invariant
            i <= regions.len(),
            fragments.len() == i,
            forall|j: int|
                0 <= j < i ==> fragments[j]@ == markdown_html(regions[j]@.leading_text()),
        decreases regions.len() - i,
    {
        fragments.push(render_markdown(regions[i].leading_text()));
        i += 1;
    }
    assert(strings_view(fragments@) =~= rendered(borrowed_view(regions@)));
    splice_markup(&document, "markdown", &fragments)
}

} // verus!
