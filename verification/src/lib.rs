//! Syntax highlighting over layered syntax trees: query predicates, text
//! predicates over a chunked rope, the merge of the matches of all layers,
//! and the composition of highlight events.

use vstd::prelude::*;

pub mod byte_order;
pub mod classify;
pub mod compile;
pub mod config;
pub mod definition_map;
pub mod highlight_query;
pub mod highlighter;
pub mod inherits;
pub mod input;
pub mod laws;
pub mod locals;
pub mod location;
pub mod parse_error;
pub mod pattern_set;
pub mod predicate;
pub mod query;
pub mod query_cursor;
pub mod query_iter;
pub mod regex;
pub mod rope;
pub mod shared;
pub mod syntax;
pub mod text;
pub mod text_predicate;
pub mod user_predicate;

pub use config::{LanguageConfig, LanguageLoader};
pub use definition_map::DefinitionMap;
pub use highlight_query::{Highlight, HighlightQuery};
pub use highlighter::{HighlightEvent, HighlightList, Highlighter, LayerData};
pub use input::{input_matches_str, IntoTsInput, TsInput};
pub use location::ParserErrorLocation;
pub use parse_error::ParseError;
pub use predicate::{InvalidPredicateError, Predicate, PredicateArg};
pub use query::{Capture, Pattern, Query, QueryData, QueryStr};
pub use query_iter::{QueryIter, QueryIterEvent};
pub use rope::RopeInput;
pub use text_predicate::MatchedNode;
pub use user_predicate::UserPredicate;

verus! {

/// A position in a document: zero-based row, and byte column within the row.
#[derive(Debug, Copy, Clone, PartialEq, Eq, PartialOrd, Ord, Hash)]
pub struct Point {
    pub row: u32,
    pub col: u32,
}

/// A span of a document, by bytes and by points.
#[derive(Debug, Copy, Clone, PartialEq, Eq, PartialOrd, Ord, Hash)]
pub struct Range {
    pub start_point: Point,
    pub end_point: Point,
    pub start_byte: u32,
    pub end_byte: u32,
}

} // verus!
