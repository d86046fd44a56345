//! Similarity and distance measures for fixed-length binary fingerprints and
//! character strings, plus a sampling-based clustering front end.
//!
//! Everything here is computed exactly: counts as integers, ratio-valued
//! measures as exact fractions. Quantities whose value is a square root are
//! exposed through their exact radicand or squared value, so that every
//! arithmetic step in this crate stays in the integers.

pub mod measures;
pub mod cluster;
pub mod dist;
pub mod jaro;
pub mod ratio;

pub use measures::abc;
pub use measures::cosine_sq;
pub use measures::dice;
pub use measures::euclidean_sq;
pub use measures::forbes;
pub use measures::hamming;
pub use measures::russell_rao;
pub use measures::soergel;
pub use measures::tanimoto;
