//! A character-level language-model toolkit: tokenizer, training data and batching.
pub mod vocab;
pub mod tokenizer;
pub mod tensor;
pub mod dataset;
pub mod schedule;
pub mod shapes;
pub mod cli;
pub mod generation;
pub mod error;
