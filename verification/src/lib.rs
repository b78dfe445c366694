//! Scoring and serialization engine for quality-assurance scorecards.
//!
//! A review is an ordered list of criteria; each criterion offers a fixed
//! list of labeled options, each worth a signed number of points or marked
//! fatal (a fatal selection zeroes the whole review).  The library computes
//! the best achievable and actual point totals, a two-decimal percentage
//! string, and reads and writes a comma/line-feed separated text format.

pub mod criterion;
pub mod csv;
pub mod laws;
pub mod review;
pub mod score;
pub mod text;

pub use criterion::Criterion;
pub use criterion::CriterionOption;
pub use review::Review;
pub use score::CriterionOptionScore;
