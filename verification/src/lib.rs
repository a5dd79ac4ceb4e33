//! Selection and ranking of package mirrors.
//!
//! A catalog of candidates is filtered down to the eligible ones, each
//! eligible candidate is given a rank, and the ranked entries are put in
//! descending order and rendered as lines. Ranks and prior scores are real
//! numbers; this library never computes with them, it only orders them, and
//! carries each as the 64-bit pattern of its IEEE 754 double.

pub mod rank_value;
pub mod candidate;
pub mod probe;
pub mod scoring;
pub mod ranker;
pub mod render;
pub mod pipeline;
