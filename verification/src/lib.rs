//! A minimal full-text search indexing and ranking engine.
//!
//! Text is tokenised into maximal alphabetic or numeric codepoint runs,
//! counted into one frequency record per document, persisted through a
//! byte codec, and queried by TF-IDF: the integer quantities of every score
//! are computed and ordered here under exact contracts, while file I/O, the
//! key-value store and the floating-point score arithmetic live with the
//! caller.

pub mod chars;
pub mod lexer;
pub mod freq;
pub mod codec;
pub mod index;
pub mod rank;
pub mod extract;
