//! k-nearest-neighbour classification with a verified core.
//!
//! A classifier stores labelled points and names the class of a query point by
//! a majority vote among the nearest stored points. Coordinates and distances
//! are carried as IEEE 754 binary64 bit patterns: the caller measures, the
//! library ranks, votes, and reads and writes the flat-text form of the data.
//!
//! - [`classifier`]: the classifier, learning and prediction.
//! - [`binary64`], [`ranking`], [`vote`]: what a prediction is made of: keys
//!   that order bit patterns as numbers, the ranking of the stored points by
//!   distance, and the vote among the nearest.
//! - [`csv`], [`text`], [`numeral`]: the flat-text form of labelled data.
//! - [`roundtrip`]: what is written is read back.
//! - [`holdout`]: a random order for the points and a count of correct
//!   predictions, for measuring accuracy.

pub mod binary64;
pub mod classifier;
pub mod csv;
pub mod error;
pub mod holdout;
pub mod numeral;
pub mod ranking;
pub mod roundtrip;
pub mod text;
pub mod vote;

pub use classifier::{KnnClassifier, KnnItem};
pub use csv::{CsvError, CsvRecord};
pub use error::PredictError;
