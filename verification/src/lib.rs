//! A streaming, pull-based XML tokenizer with a bridge that maps the event
//! stream onto the field-by-field protocol of a structured-data decoder.
//!
//! Every function in this crate carries a contract over mathematical models
//! (`Seq<u8>` for byte spans, plain structs for tokenizer state), and the
//! properties that relate several functions are stated as public proof
//! functions next to the code they describe.

pub mod errors;
pub mod scan;
pub mod attributes;
pub mod escape;
pub mod decoder;
pub mod events;
pub mod namespace;
pub mod reader;
pub mod de;
