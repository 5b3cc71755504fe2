use vstd::prelude::*;

use crate::linalg::{copy_row, matrix_wf, DIM_MAX};

verus! {

/// The embedding stage: a bounded lookup table mapping token indices
/// into a dense feature row of fixed width. A pure parameterised
/// lookup: the same input always yields the same output for fixed
/// parameters.
pub struct EmbeddingLayer {
    pub table: Vec<Vec<i64>>,
}

impl View for EmbeddingLayer {
    type V = Seq<Seq<i64>>;

    open spec fn view(&self) -> Seq<Seq<i64>> {
        self.table@.map_values(|r: Vec<i64>| r@)
    }
}

pub open spec fn emb_dim(t: Seq<Seq<i64>>) -> int {
    t[0].len() as int
}

pub open spec fn emb_wf(t: Seq<Seq<i64>>) -> bool {
    &&& 1 <= t.len() <= DIM_MAX
    &&& 1 <= emb_dim(t) <= DIM_MAX
    &&& matrix_wf(t, emb_dim(t))
}

/// The embedded representation: one table row per token, in order.
pub open spec fn spec_embed(t: Seq<Seq<i64>>, tokens: Seq<usize>) -> Seq<Seq<i64>> {
    Seq::new(tokens.len(), |i: int| t[tokens[i] as int])
}

impl EmbeddingLayer {
    /// Zero-initialised table for `vocab_size` tokens of width
    /// `embedding_dim`.
    pub fn new(vocab_size: usize, embedding_dim: usize) -> (r: EmbeddingLayer)
        requires
            1 <= vocab_size <= DIM_MAX,
            1 <= embedding_dim <= DIM_MAX,
        ensures
            emb_wf(r@),
            r@.len() == vocab_size as int,
            emb_dim(r@) == embedding_dim as int,
    {
        let mut table: Vec<Vec<i64>> = Vec::new();
        let mut i: usize = 0;
        while i < vocab_size
            invariant
                i <= vocab_size,
                1 <= embedding_dim <= DIM_MAX,
                table@.len() == i as int,
                forall|k: int|
                    0 <= k < i as int ==> (#[trigger] table@[k])@ =~= Seq::new(
                        embedding_dim as nat,
                        |j: int| 0i64,
                    ),
            decreases vocab_size - i,
        {
            let mut row: Vec<i64> = Vec::new();
            let mut j: usize = 0;
            while j < embedding_dim
                invariant
                    j <= embedding_dim,
                    row@.len() == j as int,
                    forall|a: int| 0 <= a < j as int ==> #[trigger] row@[a] == 0,
                decreases embedding_dim - j,
            {
                row.push(0);
                j = j + 1;
            }
            proof {
                assert(row@ =~= Seq::new(embedding_dim as nat, |a: int| 0i64));
            }
            table.push(row);
            i = i + 1;
        }
        EmbeddingLayer { table }
    }

    /// The configured feature width.
    pub fn dim(&self) -> (r: usize)
        requires
            emb_wf(self@),
        ensures
            r as int == emb_dim(self@),
    {
        self.table[0].len()
    }

    /// Looks every token up; exact and total on in-range tokens.
    pub fn forward(&self, tokens: &Vec<usize>) -> (r: Vec<Vec<i64>>)
        requires
            emb_wf(self@),
            forall|i: int| 0 <= i < tokens@.len() ==> (#[trigger] tokens@[i]) < self@.len(),
        ensures
            r@.map_values(|v: Vec<i64>| v@) == spec_embed(self@, tokens@),
            r@.len() == tokens@.len(),
            matrix_wf(r@.map_values(|v: Vec<i64>| v@), emb_dim(self@)),
    {
        let n = tokens.len();
        let mut out: Vec<Vec<i64>> = Vec::new();
        let mut i: usize = 0;
        while i < n
            invariant
                i <= n,
                n == tokens@.len(),
                emb_wf(self@),
                forall|k: int| 0 <= k < n as int ==> (#[trigger] tokens@[k]) < self@.len(),
                out@.len() == i as int,
                forall|k: int|
                    0 <= k < i as int ==> (#[trigger] out@[k])@ == self@[tokens@[k] as int],
            decreases n - i,
        {
            proof {
                assert(self@[tokens@[i as int] as int] == self.table@[tokens@[i as int] as int]@);
            }
            let row = copy_row(&self.table[tokens[i]]);
            out.push(row);
            i = i + 1;
        }
        proof {
            assert(out@.map_values(|v: Vec<i64>| v@) =~= spec_embed(self@, tokens@));
        }
        out
    }
}

} // verus!
