//! Why a prediction is refused.

use vstd::prelude::*;

verus! {

/// The reasons for which a classifier names no label.
#[derive(Clone, Copy, Debug, PartialEq, Eq, Structural)]
pub enum PredictError {
    /// The classifier holds no point.
    EmptyModel,
    /// The distances given are not one for each stored point.
    LengthMismatch,
    /// A distance is not a number.
    InvalidDistance,
}

} // verus!
