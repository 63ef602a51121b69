//! A verified interpreter library for a tape-based, bracket-structured
//! instruction language with eight symbols, one growable byte tape and one
//! input/output byte stream.
//!
//! The pipeline has three stages: [`lexer`] turns source text into tokens,
//! [`parser`] resolves loop brackets into mutual jump targets, and
//! [`runner`] executes the resolved instructions against the tape.

pub mod cli;
pub mod lexer;
pub mod parser;
pub mod runner;
pub mod usage;
