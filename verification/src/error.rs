//! What can go wrong while a page is compiled.

use vstd::prelude::*;
use vstd::string::StringExecFns;
use crate::tree::{Node, Tree, forest_view};

verus! {

/// A failure. Each one ends the compilation of the page.
#[derive(Debug)]
pub enum PageError {
    /// The request path does not begin with `/`.
    InvalidRequest,
    /// The text of a page or component is not at hand.
    ComponentLoad { path: String },
    /// Parsed markup lacks an element that had to be in it.
    Parse { missing: String },
    /// A text is too long for the parser.
    TooLong,
    /// A placeholder names a slot that the including page does not fill.
    SlotNotFound { name: String },
    /// A script failed.
    Script { message: String },
    /// The highlighter failed, or a theme is not known.
    Highlight { message: String },
    /// Components take each other in more than
    /// [`MAX_INCLUDE_DEPTH`](crate::resolve::MAX_INCLUDE_DEPTH) deep.
    IncludeDepth,
}

/// The model of an [`PageError`].
pub enum PageErrorModel {
    InvalidRequest,
    ComponentLoad { path: Seq<char> },
    Parse { missing: Seq<char> },
    TooLong,
    SlotNotFound { name: Seq<char> },
    Script { message: Seq<char> },
    Highlight { message: Seq<char> },
    IncludeDepth,
}

impl View for PageError {
    type V = PageErrorModel;

    open spec fn view(&self) -> PageErrorModel {
        match *self {
            PageError::InvalidRequest => PageErrorModel::InvalidRequest,
            PageError::ComponentLoad { path } => PageErrorModel::ComponentLoad { path: path@ },
            PageError::Parse { missing } => PageErrorModel::Parse { missing: missing@ },
            PageError::TooLong => PageErrorModel::TooLong,
            PageError::SlotNotFound { name } => PageErrorModel::SlotNotFound { name: name@ },
            PageError::Script { message } => PageErrorModel::Script { message: message@ },
            PageError::Highlight { message } => PageErrorModel::Highlight { message: message@ },
            PageError::IncludeDepth => PageErrorModel::IncludeDepth,
        }
    }
}

/// Whether `result` is what `expected` says: the same nodes, or the same
/// error.
pub open spec fn agrees(
    result: Result<Vec<Node>, PageError>,
    expected: Result<Seq<Tree>, PageErrorModel>,
) -> bool {
    match result {
        Ok(nodes) => expected == Ok::<Seq<Tree>, PageErrorModel>(forest_view(nodes@)),
        Err(error) => expected == Err::<Seq<Tree>, PageErrorModel>(error@),
    }
}

impl PageErrorModel {
    /// The error in words.
    pub open spec fn description(self) -> Seq<char> {
        match self {
            PageErrorModel::InvalidRequest => "request path does not start with /"@,
            PageErrorModel::ComponentLoad { path } => "cannot load "@ + path,
            PageErrorModel::Parse { missing } => "markup has no element "@ + missing,
            PageErrorModel::TooLong => "text is too long to parse"@,
            PageErrorModel::SlotNotFound { name } => "no exportelement for slot "@ + name,
            PageErrorModel::Script { message } => message,
            PageErrorModel::Highlight { message } => "highlighting failed: "@ + message,
            PageErrorModel::IncludeDepth => "components are nested too deeply"@,
        }
    }
}

impl PageError {
    /// The error in words.
    pub fn describe(&self) -> (text: String)
        ensures
            text@ == self@.description(),
    {
        match self {
            PageError::InvalidRequest => "request path does not start with /".to_owned(),
            PageError::ComponentLoad { path } => "cannot load ".to_owned().concat(path.as_str()),
            PageError::Parse { missing } => "markup has no element ".to_owned().concat(
                missing.as_str(),
            ),
            PageError::TooLong => "text is too long to parse".to_owned(),
            PageError::SlotNotFound { name } => "no exportelement for slot ".to_owned().concat(
                name.as_str(),
            ),
            PageError::Script { message } => message.clone(),
            PageError::Highlight { message } => "highlighting failed: ".to_owned().concat(
                message.as_str(),
            ),
            PageError::IncludeDepth => "components are nested too deeply".to_owned(),
        }
    }
}

} // verus!
