use vstd::prelude::*;

use vstd::arithmetic::div_mod::{
    lemma_div_is_ordered, lemma_div_pos_is_pos, lemma_fundamental_div_mod_converse,
};

use crate::error::MorError;
use crate::linalg::{
    bounded_seq, lemma_div_superadd, lemma_elem_le_sum, lemma_sum_lower_each_one, lin_out_dim,
    lin_wf, relu_vec, spec_affine_checked, spec_relu, spec_sum, LinearLayer, LinearV, DIM_MAX,
    SCALE, VAL_MAX,
};

verus! {

/// The expert selector: two affine transforms with a rectifier between them,
/// followed by an exact normalisation of positive scores into a
/// fixed-point distribution over the experts. The routing policy is
/// dense: it weights every expert, it never selects a subset.
pub struct ExpertSelector {
    pub linear1: LinearLayer,
    pub linear2: LinearLayer,
}

/// Mathematical content of the selector.
#[verifier::ext_equal]
pub struct SelectorV {
    pub linear1: LinearV,
    pub linear2: LinearV,
}

impl View for ExpertSelector {
    type V = SelectorV;

    open spec fn view(&self) -> SelectorV {
        SelectorV { linear1: self.linear1@, linear2: self.linear2@ }
    }
}

pub open spec fn sel_wf(s: SelectorV, in_dim: int) -> bool {
    &&& lin_wf(s.linear1, in_dim)
    &&& lin_wf(s.linear2, lin_out_dim(s.linear1))
}

/// Strictly positive per-expert scores: rectified gate logits shifted
/// by one, so that normalisation is always defined.
pub open spec fn spec_positive_scores(h: Seq<i64>) -> Seq<i64> {
    Seq::new(h.len(), |i: int| if h[i] < 0 { 1i64 } else { (h[i] + 1) as i64 })
}

/// Sum of the fixed-point shares of all entries after the first.
pub open spec fn spec_tail_shares(s: Seq<i64>, total: int) -> int
    decreases s.len(),
{
    if s.len() <= 1 {
        0
    } else {
        spec_tail_shares(s.drop_last(), total) + (s.last() as int * SCALE) / total
    }
}

/// Exact normalisation of positive scores into a row that sums to
/// `SCALE`: every entry after the first takes its floored proportional
/// share, and the first entry absorbs the remainder.
pub open spec fn spec_normalize(s: Seq<i64>) -> Seq<i64> {
    let total = spec_sum(s);
    Seq::new(
        s.len(),
        |i: int|
            if i == 0 {
                (SCALE - spec_tail_shares(s, total)) as i64
            } else {
                ((s[i] as int * SCALE) / total) as i64
            },
    )
}

pub open spec fn scores_ok(s: Seq<i64>) -> bool {
    &&& 1 <= s.len() <= DIM_MAX
    &&& forall|i: int| 0 <= i < s.len() ==> 1 <= #[trigger] s[i] <= VAL_MAX + 1
}

/// The selector's full forward computation.
pub open spec fn spec_selector_forward(sel: SelectorV, x: Seq<i64>) -> Option<Seq<i64>> {
    match spec_affine_checked(sel.linear1, x) {
        Option::None => Option::None,
        Option::Some(h1) => match spec_affine_checked(sel.linear2, spec_relu(h1)) {
            Option::None => Option::None,
            Option::Some(h2) => Option::Some(spec_normalize(spec_positive_scores(h2))),
        },
    }
}

impl ExpertSelector {
    /// Zero-initialised gate of hidden width `hidden_dim` over
    /// `num_experts` experts.
    pub fn new(input_dim: usize, hidden_dim: usize, num_experts: usize) -> (r: ExpertSelector)
        requires
            1 <= input_dim <= DIM_MAX,
            1 <= hidden_dim <= DIM_MAX,
            1 <= num_experts <= DIM_MAX,
        ensures
            sel_wf(r@, input_dim as int),
            lin_out_dim(r@.linear2) == num_experts as int,
            lin_out_dim(r@.linear1) == hidden_dim as int,
    {
        let linear1 = LinearLayer::zeros(hidden_dim, input_dim);
        let linear2 = LinearLayer::zeros(num_experts, hidden_dim);
        ExpertSelector { linear1, linear2 }
    }

    /// Produces the routing distribution for one pooled example: a row of
    /// `num_experts` fixed-point probabilities that is proved to sum
    /// to `SCALE` with every entry non-negative.
    pub fn forward(&self, input: &Vec<i64>) -> (r: Result<Vec<i64>, MorError>)
        requires
            sel_wf(self@, input@.len() as int),
            bounded_seq(input@),
        ensures
            match r {
                Ok(g) => {
                    &&& spec_selector_forward(self@, input@) == Some(g@)
                    &&& g@.len() == lin_out_dim(self@.linear2)
                    &&& spec_sum(g@) == SCALE
                    &&& forall|i: int| 0 <= i < g@.len() ==> 0 <= #[trigger] g@[i] <= SCALE
                },
                Err(e) => {
                    &&& spec_selector_forward(self@, input@) is None
                    &&& e == MorError::Numeric
                },
            },
    {
        let h1 = match self.linear1.forward(input) {
            Ok(h) => h,
            Err(err) => {
                return Err(err);
            },
        };
        let a1 = relu_vec(&h1);
        let h2 = match self.linear2.forward(&a1) {
            Ok(h) => h,
            Err(err) => {
                return Err(err);
            },
        };
        let s = positive_scores(&h2);
        let g = normalize_scores(&s);
        proof {
            lemma_gate_row_valid(s@);
        }
        Ok(g)
    }
}

/// Rectifies the selector's logits and shifts by one, making every score at
/// least one.
fn positive_scores(h: &Vec<i64>) -> (r: Vec<i64>)
    requires
        bounded_seq(h@),
    ensures
        r@ == spec_positive_scores(h@),
        r@.len() == h@.len(),
        forall|i: int| 0 <= i < r@.len() ==> 1 <= #[trigger] r@[i] <= VAL_MAX + 1,
{
    let n = h.len();
    let mut out: Vec<i64> = Vec::new();
    let mut i: usize = 0;
    while i < n
        invariant
            i <= n,
            n == h@.len(),
            bounded_seq(h@),
            out@.len() == i as int,
            forall|k: int| 0 <= k < i as int ==> #[trigger] out@[k] == spec_positive_scores(h@)[k],
        decreases n - i,
    {
        let v = h[i];
        if v < 0 {
            out.push(1);
        } else {
            out.push(v + 1);
        }
        i = i + 1;
    }
    proof {
        assert(out@ =~= spec_positive_scores(h@));
    }
    out
}

/// Divides each score by the total, in fixed point, exactly as
/// `spec_normalize` states.
fn normalize_scores(s: &Vec<i64>) -> (r: Vec<i64>)
    requires
        scores_ok(s@),
    ensures
        r@ == spec_normalize(s@),
{
    let n = s.len();
    let mut total: u64 = 0;
    let mut i: usize = 0;
    while i < n
        invariant
            i <= n,
            n == s@.len(),
            scores_ok(s@),
            total as int == spec_sum(s@.take(i as int)),
            i as int <= total as int <= (i as int) * (VAL_MAX + 1) as int,
        decreases n - i,
    {
        proof {
            assert(s@.take(i as int + 1).drop_last() =~= s@.take(i as int));
            assert(s@.take(i as int + 1).last() == s@[i as int]);
            assert((i as int) * (VAL_MAX + 1) as int + (VAL_MAX + 1) == (i as int + 1) * (VAL_MAX
                + 1) as int) by (nonlinear_arith);
            assert((i as int + 1) * (VAL_MAX + 1) as int <= (n as int) * (VAL_MAX + 1) as int)
                by (nonlinear_arith)
                requires
                    i as int + 1 <= n as int,
                    VAL_MAX + 1 > 0,
            ;
            assert((n as int) * (VAL_MAX + 1) as int <= 1_000_000_000_000 + 1_000_000)
                by (nonlinear_arith)
                requires
                    0 <= n as int <= 1_000_000,
                    VAL_MAX == 1_000_000,
            ;
        }
        total = total + (s[i] as u64);
        i = i + 1;
    }
    proof {
        assert(s@.take(n as int) =~= s@);
    }
    let ghost t = total as int;
    let mut shares: Vec<i64> = Vec::new();
    let mut tail_sum: u64 = 0;
    let mut j: usize = 1;
    while j < n
        invariant
            1 <= j <= n,
            n == s@.len(),
            scores_ok(s@),
            t == spec_sum(s@),
            n as int <= t <= 1_000_001_000_000,
            total as int == t,
            shares@.len() == j - 1,
            forall|k: int|
                1 <= k < j as int ==> (#[trigger] shares@[k - 1]) as int == (s@[k] as int * SCALE)
                    / t,
            forall|k: int| 0 <= k < j - 1 ==> 0 <= #[trigger] shares@[k] <= SCALE,
            tail_sum as int == spec_tail_shares(s@.take(j as int), t),
            tail_sum as int <= (j - 1) * SCALE as int,
        decreases n - j,
    {
        proof {
            assert(1 <= s@[j as int] <= VAL_MAX + 1);
        }
        let num = (s[j] as u64) * (SCALE as u64);
        let q = num / total;
        proof {
            lemma_div_pos_is_pos(num as int, t);
            lemma_elem_le_sum(s@, j as int);
            assert(num as int <= t * SCALE as int) by (nonlinear_arith)
                requires
                    num as int == s@[j as int] as int * SCALE as int,
                    s@[j as int] as int <= t,
                    SCALE as int > 0,
            ;
            lemma_div_is_ordered(num as int, t * SCALE as int, t);
            lemma_fundamental_div_mod_converse(t * SCALE as int, t, SCALE as int, 0);
            assert(s@.take(j as int + 1).drop_last() =~= s@.take(j as int));
            assert(s@.take(j as int + 1).last() == s@[j as int]);
            assert((j - 1) * SCALE as int + SCALE as int == (j as int) * SCALE as int)
                by (nonlinear_arith);
            assert((j as int) * SCALE as int <= 1_000_000 * 10_000) by (nonlinear_arith)
                requires
                    0 <= j as int <= 1_000_000,
                    SCALE == 10_000,
            ;
        }
        shares.push(q as i64);
        tail_sum = tail_sum + q;
        j = j + 1;
    }
    proof {
        assert(s@.take(n as int) =~= s@);
    }
    let first = SCALE - (tail_sum as i64);
    let mut out: Vec<i64> = Vec::new();
    out.push(first);
    let mut k: usize = 0;
    while k < n - 1
        invariant
            k <= n - 1,
            1 <= n == s@.len(),
            shares@.len() == n - 1,
            out@.len() == k + 1,
            out@[0] == first,
            forall|a: int| 1 <= a < out@.len() ==> #[trigger] out@[a] == shares@[a - 1],
        decreases n - 1 - k,
    {
        out.push(shares[k]);
        k = k + 1;
    }
    proof {
        assert forall|a: int| 0 <= a < n as int implies #[trigger] out@[a] == spec_normalize(s@)[a]
        by {
            if a > 0 {
                assert(out@[a] == shares@[a - 1]);
                assert((shares@[(a - 1) + 1 - 1]) as int == (s@[a] as int * SCALE) / t);
            }
        }
        assert(out@ =~= spec_normalize(s@));
    }
    out
}

/// Sum of any fixed-point share assignment: a row whose first entry is
/// `x` and whose later entries are the floored shares of `s` sums to
/// `x` plus the tail shares.
proof fn lemma_sum_of_share_row(q: Seq<i64>, s: Seq<i64>, total: int, x: int)
    requires
        q.len() == s.len(),
        s.len() >= 1,
        q[0] as int == x,
        forall|i: int| 1 <= i < q.len() ==> #[trigger] q[i] as int == (s[i] as int * SCALE) / total,
    ensures
        spec_sum(q) == x + spec_tail_shares(s, total),
    decreases q.len(),
{
    if q.len() == 1 {
        assert(spec_sum(q) == spec_sum(q.drop_last()) + q.last() as int);
        assert(q.drop_last().len() == 0);
    } else {
        lemma_sum_of_share_row(q.drop_last(), s.drop_last(), total, x);
    }
}

/// Gate validity: normalising positive scores yields a row that sums
/// exactly to `SCALE` with every entry between zero and `SCALE` — a
/// fixed-point probability distribution over the experts.
pub proof fn lemma_gate_row_valid(s: Seq<i64>)
    requires
        scores_ok(s),
    ensures
        spec_sum(spec_normalize(s)) == SCALE,
        spec_normalize(s).len() == s.len(),
        forall|i: int| 0 <= i < s.len() ==> 0 <= #[trigger] spec_normalize(s)[i] <= SCALE,
{
    let total = spec_sum(s);
    let g = spec_normalize(s);
    lemma_sum_lower_each_one(s);
    lemma_tail_shares_bounds(s, total);
    lemma_sum_of_share_row(g, s, total, SCALE - spec_tail_shares(s, total));
    assert forall|i: int| 0 <= i < s.len() implies 0 <= #[trigger] g[i] <= SCALE by {
        if i > 0 {
            lemma_share_in_range(s, total, i);
        }
    }
}

/// One floored share is between zero and `SCALE`.
proof fn lemma_share_in_range(s: Seq<i64>, total: int, i: int)
    requires
        scores_ok(s),
        total == spec_sum(s),
        0 <= i < s.len(),
    ensures
        0 <= (s[i] as int * SCALE) / total <= SCALE,
{
    lemma_sum_lower_each_one(s);
    lemma_elem_le_sum(s, i);
    assert(s[i] as int * SCALE >= 0) by (nonlinear_arith)
        requires
            s[i] as int >= 1,
            SCALE as int > 0,
    ;
    lemma_div_pos_is_pos(s[i] as int * SCALE, total);
    assert(s[i] as int * SCALE <= total * SCALE as int) by (nonlinear_arith)
        requires
            s[i] as int <= total,
            SCALE as int > 0,
    ;
    lemma_div_is_ordered(s[i] as int * SCALE, total * SCALE as int, total);
    lemma_fundamental_div_mod_converse(total * SCALE as int, total, SCALE as int, 0);
}

/// The tail shares are non-negative and total strictly less than
/// `SCALE`, so the first entry's remainder is itself a valid share.
proof fn lemma_tail_shares_bounds(s: Seq<i64>, total: int)
    requires
        scores_ok(s),
        total == spec_sum(s),
    ensures
        0 <= spec_tail_shares(s, total),
        spec_tail_shares(s, total) <= SCALE - 1,
{
    lemma_sum_lower_each_one(s);
    lemma_tail_shares_le(s, s, total);
    if s.len() >= 2 {
        lemma_elem_le_sum(s, 0);
        // (total - s[0]) * SCALE <= total * SCALE - SCALE, whose
        // floored quotient by total is at most SCALE - 1
        assert((spec_sum(s) - s[0] as int) * SCALE as int <= total * SCALE as int - SCALE as int)
            by (nonlinear_arith)
            requires
                total == spec_sum(s),
                s[0] as int >= 1,
                SCALE as int > 0,
        ;
        lemma_div_is_ordered(
            (spec_sum(s) - s[0] as int) * SCALE as int,
            total * SCALE as int - SCALE as int,
            total,
        );
        lemma_shifted_multiple_div(total, SCALE as int);
    }
}

/// `(t * k - k) / t == k - 1 + ((t - k) adjustment)`: precisely, for
/// `t >= 1`, `k >= 1`, the floored quotient of `t * k - k` by `t` is
/// at most `k - 1`.
proof fn lemma_shifted_multiple_div(t: int, k: int)
    requires
        t >= 1,
        k >= 1,
    ensures
        (t * k - k) / t <= k - 1,
{
    assert(t * k - k <= (k - 1) * t + (t - 1)) by (nonlinear_arith)
        requires
            t >= 1,
            k >= 1,
    ;
    assert((k - 1) * t + (t - 1) >= 0) by (nonlinear_arith)
        requires
            t >= 1,
            k >= 1,
    ;
    lemma_div_is_ordered(t * k - k, (k - 1) * t + (t - 1), t);
    lemma_fundamental_div_mod_converse((k - 1) * t + (t - 1), t, k - 1, t - 1);
}

/// Superadditivity of floored shares: the tail shares of `s` never
/// exceed the floored share of the tail's total.
proof fn lemma_tail_shares_le(s: Seq<i64>, whole: Seq<i64>, total: int)
    requires
        scores_ok(whole),
        total == spec_sum(whole),
        s.len() <= whole.len(),
        forall|i: int| 0 <= i < s.len() ==> s[i] == whole[i],
    ensures
        0 <= spec_tail_shares(s, total),
        s.len() >= 2 ==> spec_tail_shares(s, total) <= ((spec_sum(s) - s[0] as int) * SCALE)
            / total,
        s.len() >= 1 ==> spec_sum(s) - s[0] as int >= 0,
    decreases s.len(),
{
    lemma_sum_lower_each_one(whole);
    if s.len() <= 1 {
        if s.len() == 1 {
            assert(spec_sum(s) == spec_sum(s.drop_last()) + s.last() as int);
        }
    } else {
        let dl = s.drop_last();
        lemma_tail_shares_le(dl, whole, total);
        let last = s.last() as int;
        assert(last == whole[s.len() - 1] as int);
        assert(last >= 1);
        lemma_share_last_le(s, whole, total);
        if dl.len() <= 1 {
            assert(spec_tail_shares(dl, total) == 0);
            assert(spec_sum(s) == spec_sum(dl) + last);
            assert(spec_sum(dl) == spec_sum(dl.drop_last()) + dl.last() as int);
            assert(dl.drop_last().len() == 0);
            assert(spec_sum(dl) == s[0] as int);
            assert(spec_tail_shares(s, total) == (last * SCALE) / total);
        } else {
            let a = (spec_sum(dl) - dl[0] as int) * SCALE as int;
            let b = last * SCALE as int;
            assert(b >= 0) by (nonlinear_arith)
                requires
                    b == last * SCALE as int,
                    last >= 1,
                    SCALE as int > 0,
            ;
            lemma_div_superadd(a, b, total);
            assert(a + b == (spec_sum(s) - s[0] as int) * SCALE as int) by (nonlinear_arith)
                requires
                    a == (spec_sum(dl) - dl[0] as int) * SCALE as int,
                    b == last * SCALE as int,
                    spec_sum(s) == spec_sum(dl) + last,
                    dl[0] == s[0],
            ;
        }
    }
}

/// One more floored share is non-negative and the tail recursion stays
/// non-negative.
proof fn lemma_share_last_le(s: Seq<i64>, whole: Seq<i64>, total: int)
    requires
        scores_ok(whole),
        total == spec_sum(whole),
        2 <= s.len() <= whole.len(),
        forall|i: int| 0 <= i < s.len() ==> s[i] == whole[i],
    ensures
        (s.last() as int * SCALE) / total >= 0,
{
    lemma_sum_lower_each_one(whole);
    assert(s.last() as int * SCALE >= 0) by (nonlinear_arith)
        requires
            s.last() as int >= 1,
            SCALE as int > 0,
    ;
    lemma_div_pos_is_pos(s.last() as int * SCALE, total);
}

} // verus!
