//! A JSON-like text format with dates, numeric sentinels and bare keys:
//! a position-tracking reader, literal decoders, a value model, a parser
//! and a pretty-printing serializer.

pub mod reader;
pub mod value;
pub mod decode;
pub mod date;
pub mod text;
pub mod parser;
pub mod roundtrip;
