//! A word-embedding training engine: vocabulary construction, Huffman
//! coding, sampling tables, and a fixed-point stochastic-gradient training
//! loop for CBOW / Skip-gram models with negative-sampling or
//! hierarchical-softmax loss.
//!
//! All numeric work is done in fixed-point integer arithmetic so that every
//! step of the engine can be stated and proved exactly; the front end
//! converts to and from floating point only at the edges (corpus input and
//! vector export).
pub mod embedding;
pub mod errors;
pub mod fixedpoint;
pub mod huffman;
pub mod rate;
pub mod sampling;
pub mod tokenize;
pub mod train;
pub mod vocab;
