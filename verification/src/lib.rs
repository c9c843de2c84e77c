//! A small line-oriented HTML reader: parsing combinators for tags and
//! attributes, and a reader that turns a document into a tree of nodes.
pub mod attributes;
pub mod model;
pub mod outline;
pub mod parser;
pub mod properties;
pub mod text;
pub mod unicode;
pub mod utils;
