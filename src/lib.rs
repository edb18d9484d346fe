//! Similarity of strings measured by the length of their longest common
//! subsequence, and the ranking of candidate strings against a target.
pub mod lcs;
pub mod similarity;

pub use lcs::lcs_length;
pub use similarity::{
    compare_similarity, find_best_similarity, get_similarity_ratings, RankError, Similarity,
};
