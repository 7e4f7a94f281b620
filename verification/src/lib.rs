//! Byte-pair encoding, training data and generation bookkeeping for a small
//! language model that writes code.

pub mod bpe;
pub mod cbor;
pub mod chunks;
pub mod corpus;
pub mod dataset;
pub mod generation;
pub mod grpo;
pub mod model;
pub mod ordered;
pub mod pair_index;
pub mod pairs;
pub mod parts;
pub mod pattern;
pub mod schedule;
pub mod search;
pub mod sft;
pub mod text;
pub mod tokenizer;
pub mod words;
