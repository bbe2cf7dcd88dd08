//! RGraphQL: a GraphQL query-language library — tokenizer, parser, AST and
//! schema-independent validation.

pub mod ast;
pub mod ast_copy;
pub mod block_spec;
pub mod block_string;
pub mod fragment_rules;
pub mod lex_spec;
pub mod lexer;
pub mod literal_laws;
pub mod parse_spec;
pub mod parser;
pub mod poem_adapter;
pub mod selection_laws;
pub mod separator_law;
pub mod syntax_laws;
pub mod text;
pub mod token;
pub mod validation;
pub mod validation_laws;
pub mod validation_spec;
pub mod variable_rules;

pub use ast::{
    Argument, Directive, Document, Field, FragmentDefinition, FragmentSpread, InlineFragment,
    OperationDefinition, OperationType, Selection, SelectionSet, Type, Value, VariableDefinition,
};
pub use lexer::{tokenize, tokenize_into, LexError};
pub use parser::{parse, ParseError};
pub use poem_adapter::GraphQLRequest;
pub use token::{CollectingSink, Token, TokenKind, TokenSink};
pub use validation::{validate, ValidationError};
pub use validation_spec::ValidationErrorKind;
