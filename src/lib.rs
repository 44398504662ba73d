//! Ingests a project's text files into one line-oriented payload, and decodes
//! the answer of a completion endpoint from its streamed fragments.

pub mod binary;
pub mod decoder;
pub mod escape;
pub mod json;
pub mod payload;
pub mod text;
