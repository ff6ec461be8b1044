//! A buffered, low-allocation tokenizer over a pull-based byte source: integers, words, lines
//! and delimited runs read from a fixed window that is refilled on demand.
pub mod decimal;
pub mod lex;
pub mod range_map;
pub mod reader;
pub mod source;
pub mod text;
