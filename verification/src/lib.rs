//! A word-lookup and fuzzy-spelling-suggestion library.
//!
//! The distance engine computes the Levenshtein edit distance between two
//! character sequences; the ranker orders every dictionary entry by its
//! distance to a query word, keeping dictionary order among ties; the word
//! list module turns the text of a word-per-line file into a dictionary.

pub mod distance;
pub mod rank;
pub mod wordlist;
