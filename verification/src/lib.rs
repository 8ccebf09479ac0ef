//! A small recommender-systems toolkit: sparse rating vectors, similarity
//! metrics (cosine, Jaccard, Pearson) over them, and a k-nearest-neighbor
//! recommender that predicts a user's missing rating from the ratings of the
//! most similar users.
//!
//! All quantities are exact integers. A rating is an `i64`; callers that
//! work with fractional ratings scale them to a fixed-point grid first (for
//! example thousandths). Similarity values are fixed-point integers scaled by
//! [`similarity::SIM_SCALE`], so a similarity of `1.0` is represented as `SIM_SCALE`.

pub mod laws;
pub mod num;
pub mod recommender;
pub mod similarity;
pub mod sparse;
