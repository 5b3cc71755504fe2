use vstd::prelude::*;

verus! {

/// Immutable run parameters, created once at process start and owned by
/// the training or evaluation loop for the duration of a run.
///
/// The learning rate is carried in micro-units (`1_000_000` is a rate
/// of one) so that the core never holds a floating-point value; the
/// numeric engine that consumes it converts back at its boundary.
/// `reflection_depth` is threaded into expert construction: it is the
/// number of affine layers inside each reflection expert.
pub struct Config {
    pub learning_rate_micro: u64,
    pub batch_size: usize,
    pub reflection_depth: usize,
    pub num_experts: usize,
    pub max_epochs: usize,
    pub data_path: String,
    pub model_save_path: String,
}

impl Config {
    /// A configuration the core accepts: a positive learning rate, a
    /// positive batch size, at least one expert, and at least one
    /// affine layer per expert. `max_epochs` may be zero (a run that
    /// trains on nothing and only persists the parameters).
    pub open spec fn valid(&self) -> bool {
        &&& self.learning_rate_micro >= 1
        &&& self.batch_size >= 1
        &&& self.reflection_depth >= 1
        &&& self.num_experts >= 1
    }

    /// Runtime check of `valid`, for callers that receive a
    /// configuration from outside.
    pub fn is_valid(&self) -> (r: bool)
        ensures
            r == self.valid(),
    {
        self.learning_rate_micro >= 1 && self.batch_size >= 1 && self.reflection_depth >= 1
            && self.num_experts >= 1
    }
}

} // verus!
