//! Search over a small, fixed corpus of features: an index of the one-, two-
//! and three-byte n-grams of their titles, flags and items; a tokenizer for
//! queries; a ranking by weighted n-gram coverage; the literal matches of
//! the terms in a text; and the cut of a text with inline code and matches
//! into segments. Every function is verified against its contract.
//!
//! Scores are kept exact, as a dividend (what a record gets for the terms)
//! and a divisor (the most that a record can get); the quotient is never
//! taken here.

pub mod corpus;
pub mod data;
pub mod highlight;
pub mod index;
pub mod listing;
pub mod markup;
pub mod ngram;
pub mod pages;
pub mod router;
pub mod score;
pub mod search;
pub mod sort;
pub mod text;
