//! Compiles pages written in HTML with a few elements of its own.
//!
//! A page may take in components (`include`, with `exportelement` and
//! `includeelement` for slots), hold markdown (`markdown`), code to highlight
//! (`syntaxhighlight`), Lua scripts (`lua`) and footnotes (`footnote`,
//! `footnotecontainer`). [`serve::serve_content`] compiles the page that a
//! request names; the passes that it runs are public too.
//!
//! A document is a [`tree::Node`]. Every pass builds a new document from the
//! one it is given, and its contract says which one, over the model
//! [`tree::Tree`]. What the HTML parser, the markdown renderer, the
//! highlighter and the Lua interpreter return is taken on trust; where it
//! depends on their arguments alone it has a name in the contracts.

pub mod error;
pub mod text;
pub mod tree;
pub mod splice;
pub mod html;
pub mod config;
pub mod store;
pub mod resolve;
pub mod placement;
pub mod script;
pub mod markdown;
pub mod highlight;
pub mod footnote;
pub mod serve;
