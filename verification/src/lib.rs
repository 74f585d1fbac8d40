//! A backtracking tokenizer for Markdown-family text, with the label (the
//! bracketed text of link and image references) as its grammar.
//!
//! The tokenizer turns bytes into a flat list of enter and exit events.
//! Constructs are small state machines that the engine drives one byte at a
//! time; [`tokenizer::Tokenizer::attempt`] runs one speculatively and takes
//! back everything it did when it does not match.
//!
//! - [`token`] and [`event`] hold the vocabulary: kinds of span, places in
//!   the input, events, and what it means for events to be well nested and
//!   to cover the input.
//! - [`tokenizer`] is the engine: the scratch register, the states, the
//!   tokenizer with `consume`, `enter`, `exit`, `drive` and `attempt`.
//! - [`construct`] holds the grammar rules: the label, the line ending with
//!   the whitespace around it, which a label may run over, the character
//!   escape, and data.
//! - [`parser`] reads a whole input, as text or as a string.
//! - [`subtokenize`] links the runs that one span is split into, and reads
//!   what stands in such runs again under the grammar of strings.

pub mod constant;
pub mod construct;
pub mod event;
pub mod parser;
pub mod subtokenize;
pub mod token;
pub mod tokenizer;
