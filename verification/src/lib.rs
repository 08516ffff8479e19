//! A parser for a small line-oriented, Gemtext-like markup dialect.
//!
//! Raw text is turned into an ordered sequence of typed elements
//! (`Document`), or rejected with a `ParseError` when the grammar cannot
//! consume the whole input.  The grammar itself is stated as spec functions
//! over `Seq<char>` in `model`, every executable function is proved against
//! that model, and `laws` states and proves the general properties of the
//! grammar: what plain inputs parse to, rule priority, failure on
//! unterminated blocks, and the render/parse round trip.

pub mod document;
pub mod laws;
pub mod model;
pub mod parse;
mod scan;

pub use document::Document;
pub use document::Element;
pub use document::ParseError;
pub use parse::parse;
