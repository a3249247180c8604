//! A first-order Markov chain text model.
//!
//! The library splits training strings into whitespace-delimited tokens,
//! records every (previous, next) token pair in a transition table, and
//! generates text by a random walk over that table.
//!
//! `tokenizer` splits strings into tokens and pairs; `table` is the
//! mathematical model of the transition table and the laws of training;
//! `chain` is the executable model; `sampling` holds the random source.

pub mod chain;
pub mod sampling;
pub mod table;
pub mod tokenizer;
