use vstd::prelude::*;

pub mod dataset;

verus! {

/// One batch: token-index sequences and one target class per example.
/// Ephemeral; consumed and discarded within one loop iteration.
pub struct Batch {
    pub inputs: Vec<Vec<usize>>,
    pub targets: Vec<usize>,
}

/// Where a batch starting at `start` ends: `batch_len` further on, or
/// at the end of the data if fewer samples remain (the final batch of
/// an epoch may be short).
pub open spec fn batch_end(start: int, batch_len: int, n: int) -> int {
    if start + batch_len <= n {
        start + batch_len
    } else {
        n
    }
}

pub open spec fn sample_inputs(s: Seq<(Seq<usize>, usize)>) -> Seq<Seq<usize>> {
    s.map_values(|p: (Seq<usize>, usize)| p.0)
}

pub open spec fn sample_targets(s: Seq<(Seq<usize>, usize)>) -> Seq<usize> {
    s.map_values(|p: (Seq<usize>, usize)| p.1)
}

/// The batch carries exactly the samples `s`, in order.
pub open spec fn batch_matches(b: Batch, s: Seq<(Seq<usize>, usize)>) -> bool {
    &&& b.inputs@.map_values(|v: Vec<usize>| v@) == sample_inputs(s)
    &&& b.targets@ == sample_targets(s)
}

/// A resettable source of batches. Batches are drawn in a fixed,
/// deterministic order, grouped contiguously by the loader's batch
/// length; exhaustion is signalled by `None`, never by an error.
pub trait DataLoader: Sized {
    /// The full dataset this loader walks, in draw order.
    spec fn samples(&self) -> Seq<(Seq<usize>, usize)>;

    /// How many samples have been handed out since the last rewind.
    spec fn pos(&self) -> int;

    /// The configured batch length.
    spec fn batch_len(&self) -> int;

    spec fn wf(&self) -> bool;

    proof fn wf_facts(&self)
        requires
            self.wf(),
        ensures
            0 <= self.pos() <= self.samples().len(),
            self.samples().len() <= usize::MAX,
            self.batch_len() >= 1,
    ;

    /// Hands out the next contiguous batch, or `None` at the end of an
    /// epoch. The data and the batch length never change.
    fn next_batch(&mut self) -> (r: Option<Batch>)
        requires
            old(self).wf(),
        ensures
            final(self).wf(),
            final(self).samples() == old(self).samples(),
            final(self).batch_len() == old(self).batch_len(),
            match r {
                None => {
                    &&& old(self).pos() >= old(self).samples().len()
                    &&& final(self).pos() == old(self).pos()
                },
                Some(b) => {
                    &&& 0 <= old(self).pos() < old(self).samples().len()
                    &&& final(self).pos() == batch_end(
                        old(self).pos(),
                        old(self).batch_len(),
                        old(self).samples().len() as int,
                    )
                    &&& batch_matches(
                        b,
                        old(self).samples().subrange(old(self).pos(), final(self).pos()),
                    )
                },
            },
    ;

    /// Rewinds to the start of the data, enabling reuse across epochs.
    fn reset(&mut self)
        requires
            old(self).wf(),
        ensures
            final(self).wf(),
            final(self).samples() == old(self).samples(),
            final(self).batch_len() == old(self).batch_len(),
            final(self).pos() == 0,
    ;
}

} // verus!
