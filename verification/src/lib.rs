//! Extracts the text found between the tags of an XML document.
//!
//! The scanner walks the document once, looks only at `<`, `>` and the
//! characters around them, and records where each run of text starts and
//! ends. What it hands back are sub-slices of the input.

pub mod encoding;
pub mod laws;
pub mod machine;
pub mod parser;
pub mod token;
pub mod values;

pub use parser::XmlStringParser;
pub use values::Values;
