//! Splits one top-level JSON array into its elements, one per line, without
//! looking inside the elements: a scanner recognises the brackets, commas and
//! whitespace between elements, and a JSON parser is asked only where one
//! element ends.

pub mod array;
pub mod error;
pub mod jsonl;
pub mod scanner;
pub mod parser;
pub mod source;
pub mod stream;
