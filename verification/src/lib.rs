//! A lexical analyzer for a small C-like language.
//!
//! Source text is classified character by character through a fixed ASCII
//! table, dispatched through a small DFA node graph that recognises
//! multi-character symbols and keywords, and assembled into a sequence of
//! tokens.  The behaviour of the whole pipeline is pinned down by the
//! specification-level tokenizer in [`model`], and the executable lexer is
//! proved to produce exactly what that tokenizer describes.

pub mod classify;
pub mod dfa;
pub mod laws;
pub mod lexer;
pub mod model;
pub mod token;
