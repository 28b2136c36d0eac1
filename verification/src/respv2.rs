//! The two-pass decoder: a length scanner that frames the input, and a
//! parser that materializes a frame once the bytes are complete.

pub mod parser;
pub mod parser_len;
