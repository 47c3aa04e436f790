//! Case-convention aware identifier replacement.
//!
//! An identifier written in one of six case conventions (camelCase,
//! PascalCase, snake_case, kebab-case, Title_Case, CONSTANT_CASE) is split
//! into word tokens, re-rendered under each convention, and the resulting
//! pattern table drives a multi-pattern replacement over an input text, so
//! that every spelling of a search identifier is rewritten into the matching
//! spelling of a replacement identifier.

pub mod boundaries;
pub mod replace;
pub mod roundtrip;
pub mod table;
pub mod tokens;
pub mod unicode;
pub mod variants;
