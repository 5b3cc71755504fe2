use vstd::prelude::*;

verus! {

/// Failures the core can report.
///
/// `Numeric` is a computation error: some intermediate of the forward
/// pass left the representable fixed-point range. `StoreMismatch` is a
/// persistence error: a parameter store does not structurally match the
/// live model it is being restored into. Both are fatal to the run that
/// raised them; nothing is retried.
#[derive(Debug, PartialEq, Eq, Structural, Clone, Copy)]
pub enum MorError {
    Numeric,
    StoreMismatch,
}

} // verus!
