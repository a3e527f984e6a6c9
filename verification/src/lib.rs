//! Translator from Doxygen-style documentation comments to a constrained
//! Markdown dialect.
#![verifier::loop_isolation(false)]

use vstd::prelude::*;

pub mod chars;
pub mod commands;
pub mod doc;
pub mod laws;
pub mod tokens;

verus! {

/// The comment translator handed to a binding generator: it turns each raw
/// documentation comment into rendered Markdown, or into absence when the
/// comment holds no renderable documentation.
#[derive(Debug)]
pub struct ParseDoxygen;

impl ParseDoxygen {
    /// Translates one documentation comment.
    pub fn process_comment(&self, comment: &str) -> (r: Option<String>)
        ensures
            ({
                let g = crate::doc::doc_spec(comment@);
                match r {
                    Some(s) => g matches Some(gs) && s@ == gs,
                    None => g is None,
                }
            }),
    {
        let pieces = crate::chars::str_to_piece(comment);
        let doc = crate::doc::Doc::new(pieces.as_slice());
        doc.render()
    }
}

} // verus!
