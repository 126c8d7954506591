//! A JSON tokenizer producing a flat token array with back-patched container
//! bounds, and a borrowing navigation layer over that array.

pub mod node;
pub mod parser;
pub mod schema;
pub mod structure;
pub mod text;
