use vstd::prelude::*;

use crate::data::{batch_end, batch_matches, sample_inputs, sample_targets, Batch, DataLoader};

verus! {

/// An in-memory loader over a fixed sample list. The caller supplies
/// the samples (the reference data source is synthetic); batches are
/// contiguous slices in the given order, the last one possibly short.
pub struct ExampleDataLoader {
    index: usize,
    data: Vec<(Vec<usize>, usize)>,
    batch_size: usize,
}

pub open spec fn view_samples(data: Seq<(Vec<usize>, usize)>) -> Seq<(Seq<usize>, usize)> {
    data.map_values(|p: (Vec<usize>, usize)| (p.0@, p.1))
}

fn copy_tokens(v: &Vec<usize>) -> (r: Vec<usize>)
    ensures
        r@ == v@,
{
    let mut out: Vec<usize> = Vec::new();
    let mut i: usize = 0;
    while i < v.len()
        invariant
            i <= v@.len(),
            out@ == v@.take(i as int),
        decreases v@.len() - i,
    {
        out.push(v[i]);
        proof {
            assert(v@.take(i as int + 1) =~= v@.take(i as int).push(v@[i as int]));
        }
        i = i + 1;
    }
    proof {
        assert(v@.take(v@.len() as int) =~= v@);
    }
    out
}

impl ExampleDataLoader {
    pub fn new(data: Vec<(Vec<usize>, usize)>, batch_size: usize) -> (r: ExampleDataLoader)
        requires
            batch_size >= 1,
        ensures
            r.wf(),
            r.pos() == 0,
            r.batch_len() == batch_size as int,
            r.samples() == view_samples(data@),
    {
        ExampleDataLoader { index: 0, data, batch_size }
    }

    pub fn len(&self) -> (r: usize)
        ensures
            r == self.samples().len(),
    {
        self.data.len()
    }
}

impl DataLoader for ExampleDataLoader {
    closed spec fn samples(&self) -> Seq<(Seq<usize>, usize)> {
        view_samples(self.data@)
    }

    closed spec fn pos(&self) -> int {
        self.index as int
    }

    closed spec fn batch_len(&self) -> int {
        self.batch_size as int
    }

    closed spec fn wf(&self) -> bool {
        self.batch_size >= 1 && self.index <= self.data@.len()
    }

    proof fn wf_facts(&self) {
        vstd::std_specs::vec::axiom_spec_len(&self.data);
    }

    fn next_batch(&mut self) -> (r: Option<Batch>) {
        let n = self.data.len();
        if self.index >= n {
            return None;
        }
        let start = self.index;
        let remaining = n - start;
        let take_n = if self.batch_size < remaining {
            self.batch_size
        } else {
            remaining
        };
        let end = start + take_n;
        proof {
            assert(end as int == batch_end(start as int, self.batch_size as int, n as int));
        }
        let mut inputs: Vec<Vec<usize>> = Vec::new();
        let mut targets: Vec<usize> = Vec::new();
        let mut i: usize = start;
        while i < end
            invariant
                start <= i <= end,
                end <= n,
                n == self.data@.len(),
                inputs@.len() == i - start,
                targets@.len() == i - start,
                forall|k: int|
                    0 <= k < i - start ==> (#[trigger] inputs@[k])@ == self.data@[start + k].0@,
                forall|k: int| 0 <= k < i - start ==> #[trigger] targets@[k] == self.data@[start + k].1,
            decreases end - i,
        {
            let toks = copy_tokens(&self.data[i].0);
            inputs.push(toks);
            targets.push(self.data[i].1);
            i = i + 1;
        }
        self.index = end;
        let b = Batch { inputs, targets };
        proof {
            let s = self.samples().subrange(start as int, end as int);
            assert(b.inputs@.map_values(|v: Vec<usize>| v@) =~= sample_inputs(s));
            assert(b.targets@ =~= sample_targets(s));
        }
        Some(b)
    }

    fn reset(&mut self) {
        self.index = 0;
    }
}

} // verus!
