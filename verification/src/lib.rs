//! Mixture of Reflection (MoR): a dense mixture-of-experts model.
//!
//! A learned gate routes each input toward a fixed pool of parallel
//! "reflection" expert modules; every expert is evaluated on every input
//! (dense routing), the expert outputs are weighted by that gate's
//! probability row and integrated into a single task output.
//!
//! All model arithmetic here is exact fixed-point integer arithmetic:
//! a gate probability of 1.0 is `linalg::SCALE`. The floating-point
//! tensor engine that performs gradient computation and parameter
//! updates is an external capability driven from outside this crate;
//! the routing policy, the integration rule, the loop control, the
//! accuracy metric and parameter persistence are verified here.

pub mod config;
pub mod data;
pub mod error;
pub mod linalg;
pub mod model;
