//! What is read from annotated sources.

pub mod annotation;
pub mod tokenizer;
