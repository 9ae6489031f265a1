//! Spike envelope: tests whether a sub-range of a numeric series holds more or
//! fewer outliers than the whole series makes likely, by a normal approximation
//! to the binomial distribution.
//!
//! The verified part holds the tokenizer of the raw series text, the parsing of
//! record indices, the validation gates, the tally of outliers and the
//! binomial envelope, which is computed exactly in integer arithmetic.

pub mod text;
pub mod index;
pub mod envelope;
pub mod calc;
