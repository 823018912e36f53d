//! The wire protocol: values, their encoding and the decoder.

pub mod double;
pub mod laws;
pub mod parser;
pub mod value;
