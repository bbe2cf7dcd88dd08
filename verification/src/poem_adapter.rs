//! The entry point that an HTTP layer calls: a GraphQL-over-HTTP request
//! body in its smallest form, and the parsing of its query. The HTTP
//! handler itself stays outside this crate and only hands the query over.

use vstd::prelude::*;

use crate::ast::Document;
use crate::lexer::fits_in_memory;
use crate::parse_spec::spec_parse;
use crate::parser::{parse, ParseError};
use crate::text::owned;

verus! {

/// A request body: the query text and, for documents with several
/// operations, the name of the one to run (not used yet).
#[derive(Debug, Clone)]
pub struct GraphQLRequest {
    pub query: String,
    pub operation_name: Option<String>,
}

impl GraphQLRequest {
    /// A request for `query`, naming no operation.
    pub fn new(query: &str) -> (res: Self)
        ensures
            res.query@ == query@,
            res.operation_name is None,
    {
        GraphQLRequest { query: owned(query), operation_name: None }
    }

    /// Parses the query of the request (see `parse`).
    pub fn parse_query(&self) -> (res: Result<Document, ParseError>)
        requires
            fits_in_memory(self.query@),
        ensures
            match spec_parse(self.query@) {
                Ok(d) => res matches Ok(x) && x@ == d,
                Err(e) => res matches Err(x) && x@ == e,
            },
    {
        parse(self.query.as_str())
    }
}

} // verus!
