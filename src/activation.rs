use vstd::prelude::*;

verus! {

/// The logistic activation, `1 / (1 + e^(-x))`.
///
/// A marker type: the evaluation is floating-point and is carried out by the
/// code that chooses the value type of the network.
#[derive(Clone, Copy, Debug, PartialEq, Eq)]
pub struct Sigmoid;

/// The rectified linear activation, `max(0, x)`.
///
/// A marker type: the evaluation is floating-point and is carried out by the
/// code that chooses the value type of the network.
#[derive(Clone, Copy, Debug, PartialEq, Eq)]
pub struct ReLU;

} // verus!
