//! A reverse-mode automatic differentiation engine for fixed-shape integer
//! tensors.
//!
//! A [`gradients::GradientTape`] records, during a forward computation, one
//! gradient buffer per tracked value and an ordered list of backward steps.
//! Replaying the steps in reverse order accumulates, for every registered
//! slot, the chain-rule sum of all contributions that flow back from the
//! seeded output.

pub mod gradients;
pub mod tensor;
