//! Completes a text that is the start of a JSON text: it cuts off what cannot
//! stand, completes the value that the text ends in, and closes the arrays
//! and objects that are still open.
//!
//! The library reads texts as UTF-8 bytes. Its contracts give the bytes of
//! every result, and so the result itself.

pub mod amend;
pub mod amend_laws;
pub mod json;
pub mod laws;
pub mod parser;
pub mod partial_parser;
pub mod partical_parser;
pub mod prefix;
pub mod quiet;
pub mod rebuild;
pub mod scan;
pub mod text;
pub mod utils;
pub mod value_laws;
pub mod value_parser;
pub mod zipper;
