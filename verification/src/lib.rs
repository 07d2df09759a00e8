//! Reconstruction of sentences from frequency-annotated word n-grams.
//!
//! An n-gram is a phrase of exactly `n` consecutive tokens together with an
//! observed frequency. Sentences begin and end with the boundary token `_`.
//! The library parses raw corpus lines into records ([`record`]), indexes
//! the records by their `(n-1)`-token overlap prefix ([`index`]), and
//! reconstructs sentences either by greedy unbounded chaining ([`chain`])
//! or by exhaustive enumeration of three-segment chains ([`combine`]).
//! [`driver`] selects start candidates, [`render`] produces the output
//! text, and [`laws`] proves the strategies' cross-cutting properties.

pub mod chain;
pub mod combine;
pub mod driver;
pub mod index;
pub mod laws;
pub mod record;
pub mod render;
pub mod text;
