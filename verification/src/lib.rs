//! A streaming JSON decoder.
//!
//! A [`source::ByteSource`] holds the input. A [`reader::BufferedReader`]
//! hands it out one character at a time, with a cursor that consumes and a
//! second one that only looks ahead. A [`parser::JsonParser`] reads tokens
//! from the reader and builds a [`value::JsonValue`] by recursive descent;
//! [`parser::parse`] decodes a whole document.
//!
//! What each step returns is stated against the grammar in [`grammar`], a
//! description of JSON text as functions on sequences of characters. The
//! laws of the decoder as a whole are proved in [`parser`] and
//! [`roundtrip`]: decoding is a function of the input, and the text that
//! spells a decoded document decodes to an equal document.

pub mod error;
pub mod grammar;
pub mod parser;
pub mod reader;
pub mod roundtrip;
pub mod source;
pub mod text;
pub mod token;
pub mod value;
