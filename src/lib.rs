//! A small markup parser: tags with attributes, text content and nesting.
pub mod api;
pub mod attributes;
pub mod chars;
pub mod error;
pub mod laws;
pub mod parsedoc;
pub mod parsetag;

use vstd::prelude::*;
use crate::api::XMLNode;
use crate::error::ParseError;
use crate::parsedoc::{doc_reports, parse_document, XMLParser};

verus! {

/// A document held as text, ready to be parsed.
pub struct RXML {
    content: String,
}

impl RXML {
    /// The document text.
    pub closed spec fn text(&self) -> Seq<char> {
        self.content@
    }

    pub fn new(content: String) -> (r: Self)
        ensures
            r.text() == content@,
    {
        RXML { content }
    }

    /// Parses the document into its tree of nodes.
    pub fn parse(&self) -> (r: Result<XMLNode, ParseError>)
        ensures
            match parse_document(self.text()) {
                Ok(n) => r matches Ok(node) && node.wf() && node.model() == n,
                Err(f) => r matches Err(e) && doc_reports(e, f),
            },
    {
        let parser = XMLParser::new(self.content.as_str());
        parser.parse()
    }
}

} // verus!
