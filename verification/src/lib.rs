//! A configurable lexical scanner: raw text in, classified tokens out.
//!
//! The pipeline has three stages, run in order by [`tokenizer::tokenize`]:
//! a splitter that cuts the input into positioned fragments under
//! separator, scope and escape rules; an aggregator that repeatedly fuses
//! adjacent fragments matching configured multi-step rules until a fixed
//! point is reached; and a classifier that maps each final fragment to a
//! tagged token type.

pub mod options;
pub mod split;
pub mod text;
pub mod token;
pub mod tokenizer;
