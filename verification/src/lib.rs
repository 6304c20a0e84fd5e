//! Query-side core of a trigram full-text index.
//!
//! Arbitrary text is folded into a 64-class alphabet, every window of three
//! consecutive classes is packed into one integer (a trigram), and a regular
//! expression is compiled into a boolean requirement over such trigrams.  The
//! requirement is then evaluated against an on-disk posting-list index to
//! produce a candidate document set that over-approximates the true matches.

pub mod index;
pub mod posting;
pub mod query;
pub mod search;
pub mod tri;

pub use tri::explain_packed;
pub use tri::trigrams_full;
