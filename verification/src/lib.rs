//! A verified decoder for the RESP wire format: a recursive-descent parser
//! that recognises integers, bulk strings and arrays in a character buffer
//! and builds a parse tree, and an extractor that turns a parse tree into a
//! semantic value tree.

pub mod extract;
pub mod grammar;
pub mod laws;
pub mod node;
pub mod parser;

pub use extract::extract;
pub use extract::extract_array_entries;
pub use extract::extract_int_value;
pub use extract::extract_string_value;
pub use node::ArrayEntry;
pub use node::ConversionError;
pub use node::ParseNode;
pub use node::Rule;
pub use node::SyntaxError;
pub use parser::RESPParser;
