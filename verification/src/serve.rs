//! Compiling a page from a request.

use vstd::prelude::*;
use crate::config::Config;
use crate::error::{PageError, PageErrorModel};
use crate::highlight::{highlight_pass, process_syntax_highlighting};
use crate::html::{all_fit, fits, html_text, parse_source, serialize, source_document};
use crate::markdown::{markdown_pass, process_markdown, rendered};
use crate::resolve::{MAX_INCLUDE_DEPTH, expand_template, resolve};
use crate::script::{execute_lua, script_pass};
use crate::store::{
    Source, find_source, join, join_path, page_path, request_page, source_of, sources_view,
};
use crate::tree::{Tree, elements};

verus! {

/// The text of a resolved page after the markdown pass, the highlighting pass
/// with the highlighted `lines` of each region, and the script pass with what
/// each script wrote.
pub open spec fn compiled(
    resolved: Tree,
    lines: Seq<Seq<Seq<char>>>,
    outputs: Seq<Seq<char>>,
) -> Seq<char> {
    html_text(script_pass(highlight_pass(markdown_pass(resolved), lines), outputs))
}

/// Compiles the page that `request_uri` asks for. The request has to start
/// with `/`; the rest of it names the page below `config.paths.pages`. The
/// page is parsed, its components are taken in from below
/// `config.paths.components`, and then its markdown is rendered, its code
/// highlighted and its scripts run, in this order. `sources` holds the texts
/// of the files; one that is needed and not there is reported by its path,
/// before any script has run. A text that is too long for the parser is an
/// error.
pub fn serve_content(request_uri: &str, config: &Config, sources: &Vec<Source>) -> (result: Result<
    String,
    PageError,
>)
    ensures
        match page_path(request_uri@) {
            None => result matches Err(error) && error@ == PageErrorModel::InvalidRequest,
            Some(relative) => {
                let path = join_path(config.paths.pages@, relative);
                match source_of(sources_view(sources@), path) {
                    None => result matches Err(error) && error@ == (PageErrorModel::ComponentLoad {
                        path,
                    }),
                    Some(text) => if !fits(text) {
                        result matches Err(error) && error@ == PageErrorModel::TooLong
                    } else {
                        match resolve(
                            source_document(text).children,
                            sources_view(sources@),
                            config.paths.components@,
                            None,
                            MAX_INCLUDE_DEPTH as nat,
                        ) {
                            Err(expected) => result matches Err(error) && error@ == expected,
                            Ok(children) => {
                                let resolved = Tree { data: source_document(text).data, children };
                                let marked = markdown_pass(resolved);
                                if !all_fit(rendered(elements(children, "markdown"@))) {
                                    result matches Err(error) && error@ == PageErrorModel::TooLong
                                } else {
                                    &&& match result {
                                        Ok(html) => exists|
                                            lines: Seq<Seq<Seq<char>>>,
                                            outputs: Seq<Seq<char>>,
                                        |
                                            {
                                                &&& lines.len() == elements(
                                                    marked.children,
                                                    "syntaxhighlight"@,
                                                ).len()
                                                &&& outputs.len() == elements(
                                                    highlight_pass(marked, lines).children,
                                                    "lua"@,
                                                ).len()
                                                &&& html@ == #[trigger] compiled(
                                                    resolved,
                                                    lines,
                                                    outputs,
                                                )
                                            },
                                        Err(error) => error is Highlight || error is Script
                                            || error is TooLong,
                                    }
                                    &&& elements(marked.children, "syntaxhighlight"@).len() == 0
                                        && elements(marked.children, "lua"@).len() == 0 ==> (
                                    result matches Ok(html) && html@ == html_text(marked))
                                }
                            },
                        }
                    },
                }
            },
        },
{
    let relative = match request_page(request_uri) {
        Some(relative) => relative,
        None => {
            return Err(PageError::InvalidRequest);
        },
    };
    let path = join(config.paths.pages.as_str(), relative.as_str());
    let text = match find_source(sources, path.as_str()) {
        Some(text) => text,
        None => {
            return Err(PageError::ComponentLoad { path });
        },
    };
    let document = match parse_source(text.as_str()) {
        Ok(document) => document,
        Err(error) => {
            return Err(error);
        },
    };
    let resolved = match expand_template(document, sources, config.paths.components.as_str(), None) {
        Ok(resolved) => resolved,
        Err(error) => {
            return Err(error);
        },
    };
    let rendered = match process_markdown(resolved) {
        Ok(rendered) => rendered,
        Err(error) => {
            return Err(error);
        },
    };
    let highlighted = match process_syntax_highlighting(rendered, config) {
        Ok(highlighted) => highlighted,
        Err(error) => {
            return Err(error);
        },
    };
    let executed = match execute_lua(highlighted) {
        Ok(executed) => executed,
        Err(error) => {
            return Err(error);
        },
    };
    let html = serialize(&executed);
    proof {
        let lines = choose|lines: Seq<Seq<Seq<char>>>|
            lines.len() == elements(rendered@.children, "syntaxhighlight"@).len()
                && highlighted@ == #[trigger] highlight_pass(rendered@, lines);
        let outputs = choose|outputs: Seq<Seq<char>>|
            outputs.len() == elements(highlighted@.children, "lua"@).len() && executed@
                == #[trigger] script_pass(highlighted@, outputs);
        assert(html@ == compiled(resolved@, lines, outputs));
    }
    Ok(html)
}

} // verus!
