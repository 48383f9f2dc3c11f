//! A lookup-and-ranking engine for a Japanese-English dictionary.
//!
//! The engine decodes entries on demand from a packed binary blob, builds
//! three inverted indices over glosses, kanji forms and kana forms, classifies
//! a free-text query by its Unicode ranges, gathers a bounded candidate set,
//! scores each candidate with a fixed feature weighting, and returns the
//! candidates ranked by score with a deterministic tie-break chain.

pub mod dictionary;
pub mod engine;
pub mod index;
pub mod search;
pub mod text;
