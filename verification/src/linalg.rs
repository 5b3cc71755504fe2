use vstd::prelude::*;
use vstd::arithmetic::div_mod::{
    lemma_div_is_ordered, lemma_div_nonincreasing, lemma_fundamental_div_mod,
    lemma_fundamental_div_mod_converse,
};

use crate::error::MorError;

verus! {

/// Fixed-point scale: a gate probability of 1.0 is `SCALE`.
pub const SCALE: i64 = 10_000;

/// Largest magnitude an activation, weight or bias may carry.
pub const VAL_MAX: i64 = 1_000_000;

/// Largest dimension (vector length, row count, expert count) the core
/// accepts. Together with `VAL_MAX` it keeps every intermediate of a
/// dot product inside `i64`.
pub const DIM_MAX: usize = 1_000_000;

/// `VAL_MAX * VAL_MAX`, the bound on one product inside a dot product.
pub const PROD_MAX: i64 = 1_000_000_000_000;

pub open spec fn in_val_range(v: int) -> bool {
    -VAL_MAX <= v <= VAL_MAX
}

pub open spec fn bounded_seq(s: Seq<i64>) -> bool {
    forall|i: int| 0 <= i < s.len() ==> in_val_range(#[trigger] s[i] as int)
}

/// Every row has length `cols` and all entries are in range.
pub open spec fn matrix_wf(m: Seq<Seq<i64>>, cols: int) -> bool {
    forall|i: int| 0 <= i < m.len() ==> (#[trigger] m[i]).len() == cols && bounded_seq(m[i])
}

pub open spec fn spec_dot(w: Seq<i64>, x: Seq<i64>) -> int
    decreases w.len(),
{
    if w.len() == 0 {
        0
    } else {
        spec_dot(w.drop_last(), x.drop_last()) + (w.last() as int) * (x.last() as int)
    }
}

pub open spec fn spec_sum(s: Seq<i64>) -> int
    decreases s.len(),
{
    if s.len() == 0 {
        0
    } else {
        spec_sum(s.drop_last()) + s.last() as int
    }
}

pub proof fn lemma_abs_mul_bound(a: int, b: int, m: int, n: int)
    requires
        -m <= a <= m,
        -n <= b <= n,
        0 <= m,
        0 <= n,
    ensures
        -(m * n) <= a * b <= m * n,
{
    assert(-(m * n) <= a * b <= m * n) by (nonlinear_arith)
        requires
            -m <= a <= m,
            -n <= b <= n,
            0 <= m,
            0 <= n,
    ;
}

/// Exact dot product of two bounded vectors; the accumulator is proved
/// to stay inside `i64`.
pub fn dot(w: &Vec<i64>, x: &Vec<i64>) -> (r: i64)
    requires
        w@.len() == x@.len(),
        w@.len() <= DIM_MAX,
        bounded_seq(w@),
        bounded_seq(x@),
    ensures
        r as int == spec_dot(w@, x@),
        -(w@.len() as int) * PROD_MAX <= r as int <= (w@.len() as int) * PROD_MAX,
{
    let n = w.len();
    let mut acc: i64 = 0;
    let mut i: usize = 0;
    while i < n
        invariant
            i <= n,
            n == w@.len(),
            n == x@.len(),
            n <= DIM_MAX,
            bounded_seq(w@),
            bounded_seq(x@),
            acc as int == spec_dot(w@.take(i as int), x@.take(i as int)),
            -(i as int) * PROD_MAX <= acc as int <= (i as int) * PROD_MAX,
        decreases n - i,
    {
        proof {
            lemma_abs_mul_bound(w@[i as int] as int, x@[i as int] as int, VAL_MAX as int, VAL_MAX as int);
            assert((i as int) * PROD_MAX + PROD_MAX == (i as int + 1) * PROD_MAX) by (nonlinear_arith);
            assert((i as int + 1) * PROD_MAX <= (n as int) * PROD_MAX) by (nonlinear_arith)
                requires
                    i as int + 1 <= n as int,
                    PROD_MAX > 0,
            ;
            assert((n as int) * PROD_MAX <= 1_000_000_000_000_000_000) by (nonlinear_arith)
                requires
                    0 <= n as int <= 1_000_000,
                    PROD_MAX == 1_000_000_000_000,
            ;
        }
        let p = w[i] * x[i];
        acc = acc + p;
        proof {
            assert(w@.take(i as int + 1).drop_last() =~= w@.take(i as int));
            assert(x@.take(i as int + 1).drop_last() =~= x@.take(i as int));
            assert(w@.take(i as int + 1).last() == w@[i as int]);
        }
        i = i + 1;
    }
    proof {
        assert(w@.take(n as int) =~= w@);
        assert(x@.take(n as int) =~= x@);
    }
    acc
}

/// Floor division by a positive divisor, also for negative dividends.
/// The result agrees with mathematical (Euclidean) integer division.
pub fn floor_div(a: i64, d: i64) -> (r: i64)
    requires
        1 <= d <= 1_000_000_000,
        -1_000_000_000_000_000_000 <= a <= 1_000_000_000_000_000_000,
    ensures
        r as int == (a as int) / (d as int),
{
    if a >= 0 {
        proof {
            lemma_div_nonincreasing(a as int, d as int);
        }
        let q = (a as u64) / (d as u64);
        q as i64
    } else {
        let m = (-a) as u64;
        let q = (m + (d as u64) - 1) / (d as u64);
        proof {
            lemma_floor_div_neg(a as int, d as int);
            assert((m + (d as u64) - 1) as int == -(a as int) + d - 1);
            // the rounded-up quotient of `m >= 1` never exceeds `m`
            assert(-(a as int) + d - 1 <= -(a as int) * (d as int)) by (nonlinear_arith)
                requires
                    -(a as int) >= 1,
                    d as int >= 1,
            ;
            lemma_div_is_ordered(-(a as int) + d - 1, -(a as int) * (d as int), d as int);
            lemma_fundamental_div_mod_converse(-(a as int) * (d as int), d as int, -(a as int), 0);
        }
        -(q as i64)
    }
}

/// For `a < 0 <= d`, floor division is the negated ceiling of the
/// magnitude: `a / d == -((-a + d - 1) / d)`.
proof fn lemma_floor_div_neg(a: int, d: int)
    requires
        a < 0,
        d >= 1,
    ensures
        a / d == -((-a + d - 1) / d),
{
    let m = -a;
    lemma_fundamental_div_mod(m, d);
    let q = m / d;
    let r = m % d;
    if r == 0 {
        assert(m + d - 1 == q * d + (d - 1)) by (nonlinear_arith)
            requires
                m == d * q + 0,
        ;
        assert(-m == (-q) * d + 0) by (nonlinear_arith)
            requires
                m == d * q + 0,
        ;
        lemma_fundamental_div_mod_converse(m + d - 1, d, q, d - 1);
        lemma_fundamental_div_mod_converse(-m, d, -q, 0);
    } else {
        assert(m + d - 1 == (q + 1) * d + (r - 1)) by (nonlinear_arith)
            requires
                m == d * q + r,
        ;
        assert(-m == (-(q + 1)) * d + (d - r)) by (nonlinear_arith)
            requires
                m == d * q + r,
        ;
        lemma_fundamental_div_mod_converse(m + d - 1, d, q + 1, r - 1);
        lemma_fundamental_div_mod_converse(-m, d, -(q + 1), d - r);
    }
}

/// A value between `-(n * m)` and `n * m` keeps, after floor division
/// by `n`, a magnitude of at most `m`: used to bound floor averages.
pub proof fn lemma_div_bound_both(s: int, n: int, m: int)
    requires
        n >= 1,
        m >= 0,
        -(n * m) <= s <= n * m,
    ensures
        -m <= s / n <= m,
{
    lemma_div_is_ordered(s, n * m, n);
    lemma_div_is_ordered(-(n * m), s, n);
    assert(n * m == m * n + 0) by (nonlinear_arith);
    assert(-(n * m) == (-m) * n + 0) by (nonlinear_arith);
    lemma_fundamental_div_mod_converse(n * m, n, m, 0);
    lemma_fundamental_div_mod_converse(-(n * m), n, -m, 0);
}

/// An exact element-for-element copy of a parameter or activation row.
pub fn copy_row(v: &Vec<i64>) -> (r: Vec<i64>)
    ensures
        r@ == v@,
{
    let mut out: Vec<i64> = Vec::new();
    let mut i: usize = 0;
    while i < v.len()
        invariant
            i <= v@.len(),
            out@ == v@.take(i as int),
        decreases v@.len() - i,
    {
        out.push(v[i]);
        proof {
            assert(v@.take(i as int + 1) =~= v@.take(i as int).push(v@[i as int]));
        }
        i = i + 1;
    }
    proof {
        assert(v@.take(v@.len() as int) =~= v@);
    }
    out
}

/// An exact copy of a weight matrix.
pub fn copy_matrix(m: &Vec<Vec<i64>>) -> (r: Vec<Vec<i64>>)
    ensures
        r@.map_values(|v: Vec<i64>| v@) == m@.map_values(|v: Vec<i64>| v@),
        r@.len() == m@.len(),
{
    let mut out: Vec<Vec<i64>> = Vec::new();
    let mut i: usize = 0;
    while i < m.len()
        invariant
            i <= m@.len(),
            out@.len() == i as int,
            forall|k: int| 0 <= k < i as int ==> (#[trigger] out@[k])@ == m@[k]@,
        decreases m@.len() - i,
    {
        let row = copy_row(&m[i]);
        out.push(row);
        i = i + 1;
    }
    proof {
        assert(out@.map_values(|v: Vec<i64>| v@) =~= m@.map_values(|v: Vec<i64>| v@));
    }
    out
}

/// Runtime check that every entry of a row is in the activation range.
pub fn check_bounded(v: &Vec<i64>) -> (r: bool)
    ensures
        r == bounded_seq(v@),
{
    let mut i: usize = 0;
    while i < v.len()
        invariant
            i <= v@.len(),
            forall|k: int| 0 <= k < i as int ==> in_val_range(#[trigger] v@[k] as int),
        decreases v@.len() - i,
    {
        let x = v[i];
        if x < -VAL_MAX || x > VAL_MAX {
            return false;
        }
        i = i + 1;
    }
    true
}

/// Runtime check of `matrix_wf`: rectangular with `cols` columns, all
/// entries in range.
pub fn check_matrix(m: &Vec<Vec<i64>>, cols: usize) -> (r: bool)
    ensures
        r == matrix_wf(m@.map_values(|v: Vec<i64>| v@), cols as int),
{
    let ghost mv = m@.map_values(|v: Vec<i64>| v@);
    let mut i: usize = 0;
    while i < m.len()
        invariant
            i <= m@.len(),
            mv == m@.map_values(|v: Vec<i64>| v@),
            forall|k: int|
                0 <= k < i as int ==> (#[trigger] mv[k]).len() == cols as int && bounded_seq(
                    mv[k],
                ),
        decreases m@.len() - i,
    {
        if m[i].len() != cols {
            proof {
                assert(mv[i as int].len() != cols as int);
            }
            return false;
        }
        if !check_bounded(&m[i]) {
            proof {
                assert(!bounded_seq(mv[i as int]));
            }
            return false;
        }
        i = i + 1;
    }
    true
}

pub proof fn lemma_sum_nonneg(s: Seq<i64>)
    requires
        forall|i: int| 0 <= i < s.len() ==> #[trigger] s[i] >= 0,
    ensures
        spec_sum(s) >= 0,
    decreases s.len(),
{
    if s.len() > 0 {
        lemma_sum_nonneg(s.drop_last());
    }
}

pub proof fn lemma_sum_lower_each_one(s: Seq<i64>)
    requires
        forall|i: int| 0 <= i < s.len() ==> #[trigger] s[i] >= 1,
    ensures
        spec_sum(s) >= s.len(),
    decreases s.len(),
{
    if s.len() > 0 {
        lemma_sum_lower_each_one(s.drop_last());
    }
}

/// In a sequence of non-negative values, every element is at most the
/// total.
pub proof fn lemma_elem_le_sum(s: Seq<i64>, i: int)
    requires
        forall|k: int| 0 <= k < s.len() ==> #[trigger] s[k] >= 0,
        0 <= i < s.len(),
    ensures
        s[i] as int <= spec_sum(s),
    decreases s.len(),
{
    if i == s.len() - 1 {
        lemma_sum_nonneg(s.drop_last());
    } else {
        lemma_elem_le_sum(s.drop_last(), i);
    }
}

/// A prefix of a sequence of non-negative values sums to at most the
/// whole sequence's total.
pub proof fn lemma_prefix_sum_le(s: Seq<i64>, e: int)
    requires
        forall|k: int| 0 <= k < s.len() ==> #[trigger] s[k] >= 0,
        0 <= e <= s.len(),
    ensures
        spec_sum(s.take(e)) <= spec_sum(s),
        spec_sum(s.take(e)) >= 0,
    decreases s.len(),
{
    lemma_sum_nonneg(s.take(e));
    if e == s.len() {
        assert(s.take(e) =~= s);
    } else {
        assert(s.drop_last().take(e) =~= s.take(e));
        lemma_prefix_sum_le(s.drop_last(), e);
    }
}

/// Floor division loses remainders, so quotients of parts never exceed
/// the quotient of the whole: `a/d + b/d <= (a+b)/d` for non-negative
/// `a`, `b`.
pub proof fn lemma_div_superadd(a: int, b: int, d: int)
    requires
        a >= 0,
        b >= 0,
        d >= 1,
    ensures
        a / d + b / d <= (a + b) / d,
{
    lemma_fundamental_div_mod(a, d);
    lemma_fundamental_div_mod(b, d);
    let qa = a / d;
    let ra = a % d;
    let qb = b / d;
    let rb = b % d;
    if ra + rb < d {
        assert(a + b == (qa + qb) * d + (ra + rb)) by (nonlinear_arith)
            requires
                a == d * qa + ra,
                b == d * qb + rb,
        ;
        lemma_fundamental_div_mod_converse(a + b, d, qa + qb, ra + rb);
    } else {
        assert(a + b == (qa + qb + 1) * d + (ra + rb - d)) by (nonlinear_arith)
            requires
                a == d * qa + ra,
                b == d * qb + rb,
        ;
        lemma_fundamental_div_mod_converse(a + b, d, qa + qb + 1, ra + rb - d);
    }
}

/// Pointwise rectified linear unit.
pub open spec fn spec_relu(s: Seq<i64>) -> Seq<i64> {
    Seq::new(s.len(), |i: int| if s[i] < 0 { 0i64 } else { s[i] })
}

pub fn relu_vec(x: &Vec<i64>) -> (r: Vec<i64>)
    requires
        bounded_seq(x@),
    ensures
        r@ == spec_relu(x@),
        r@.len() == x@.len(),
        bounded_seq(r@),
        forall|i: int| 0 <= i < r@.len() ==> #[trigger] r@[i] >= 0,
{
    let n = x.len();
    let mut out: Vec<i64> = Vec::new();
    let mut i: usize = 0;
    while i < n
        invariant
            i <= n,
            n == x@.len(),
            bounded_seq(x@),
            out@.len() == i as int,
            forall|k: int| 0 <= k < i as int ==> #[trigger] out@[k] == spec_relu(x@)[k],
        decreases n - i,
    {
        let v = x[i];
        if v < 0 {
            out.push(0);
        } else {
            out.push(v);
        }
        i = i + 1;
    }
    proof {
        assert(out@ =~= spec_relu(x@));
    }
    out
}

/// Column-wise floor mean of a non-empty rectangular stack of bounded
/// rows: the pooling step that reduces a sequence of embedded positions
/// to one feature vector.
pub open spec fn spec_mean_rows(rows: Seq<Seq<i64>>, cols: int) -> Seq<i64> {
    Seq::new(cols as nat, |j: int| (spec_col_sum(rows, j) / rows.len() as int) as i64)
}

pub open spec fn spec_col_sum(rows: Seq<Seq<i64>>, j: int) -> int
    decreases rows.len(),
{
    if rows.len() == 0 {
        0
    } else {
        spec_col_sum(rows.drop_last(), j) + rows.last()[j] as int
    }
}

pub fn mean_rows(rows: &Vec<Vec<i64>>, cols: usize) -> (r: Vec<i64>)
    requires
        1 <= rows@.len() <= DIM_MAX,
        cols <= DIM_MAX,
        matrix_wf(rows@.map_values(|v: Vec<i64>| v@), cols as int),
    ensures
        r@ == spec_mean_rows(rows@.map_values(|v: Vec<i64>| v@), cols as int),
        r@.len() == cols as int,
        bounded_seq(r@),
{
    let ghost rs = rows@.map_values(|v: Vec<i64>| v@);
    let n = rows.len();
    let mut out: Vec<i64> = Vec::new();
    let mut j: usize = 0;
    while j < cols
        invariant
            j <= cols,
            cols <= DIM_MAX,
            1 <= n <= DIM_MAX,
            n == rows@.len(),
            rs == rows@.map_values(|v: Vec<i64>| v@),
            matrix_wf(rs, cols as int),
            out@.len() == j as int,
            forall|k: int|
                0 <= k < j as int ==> #[trigger] out@[k] == spec_mean_rows(rs, cols as int)[k],
            bounded_seq(out@),
        decreases cols - j,
    {
        let mut s: i64 = 0;
        let mut i: usize = 0;
        while i < n
            invariant
                i <= n,
                j < cols,
                1 <= n <= DIM_MAX,
                n == rows@.len(),
                rs == rows@.map_values(|v: Vec<i64>| v@),
                matrix_wf(rs, cols as int),
                s as int == spec_col_sum(rs.take(i as int), j as int),
                -(i as int) * (VAL_MAX as int) <= s as int <= (i as int) * (VAL_MAX as int),
            decreases n - i,
        {
            proof {
                assert(rs[i as int] == rows@[i as int]@);
                assert(in_val_range(rs[i as int][j as int] as int));
                assert((i as int) * (VAL_MAX as int) + VAL_MAX == (i as int + 1) * (VAL_MAX as int))
                    by (nonlinear_arith);
                assert((i as int + 1) * (VAL_MAX as int) <= (n as int) * (VAL_MAX as int))
                    by (nonlinear_arith)
                    requires
                        i as int + 1 <= n as int,
                        VAL_MAX > 0,
                ;
                assert((n as int) * (VAL_MAX as int) <= 1_000_000_000_000) by (nonlinear_arith)
                    requires
                        0 <= n as int <= 1_000_000,
                        VAL_MAX == 1_000_000,
                ;
            }
            let v = rows[i][j];
            s = s + v;
            proof {
                assert(rs.take(i as int + 1).drop_last() =~= rs.take(i as int));
                assert(rs.take(i as int + 1).last() == rs[i as int]);
            }
            i = i + 1;
        }
        proof {
            assert(rs.take(n as int) =~= rs);
            lemma_div_bound_both(s as int, n as int, VAL_MAX as int);
        }
        let m = floor_div(s, n as i64);
        out.push(m);
        j = j + 1;
    }
    proof {
        assert(out@ =~= spec_mean_rows(rs, cols as int));
    }
    out
}

/// One affine transform `y = W x + b` over a bounded input.
///
/// The raw result over unbounded integers is `spec_affine`; the layer
/// succeeds exactly when every output coordinate stays inside the
/// representable activation range.
pub struct LinearLayer {
    pub weight: Vec<Vec<i64>>,
    pub bias: Vec<i64>,
}

/// Mathematical content of a `LinearLayer`.
#[verifier::ext_equal]
pub struct LinearV {
    pub weight: Seq<Seq<i64>>,
    pub bias: Seq<i64>,
}

impl View for LinearLayer {
    type V = LinearV;

    open spec fn view(&self) -> LinearV {
        LinearV { weight: self.weight@.map_values(|r: Vec<i64>| r@), bias: self.bias@ }
    }
}

pub open spec fn lin_wf(l: LinearV, in_dim: int) -> bool {
    &&& 1 <= l.weight.len() <= DIM_MAX
    &&& l.bias.len() == l.weight.len()
    &&& 1 <= in_dim <= DIM_MAX
    &&& matrix_wf(l.weight, in_dim)
    &&& bounded_seq(l.bias)
}

pub open spec fn lin_out_dim(l: LinearV) -> int {
    l.weight.len() as int
}

pub open spec fn spec_affine(l: LinearV, x: Seq<i64>) -> Seq<int> {
    Seq::new(l.weight.len(), |j: int| spec_dot(l.weight[j], x) + l.bias[j] as int)
}

pub open spec fn all_in_val_range(y: Seq<int>) -> bool {
    forall|j: int| 0 <= j < y.len() ==> in_val_range(#[trigger] y[j])
}

/// The affine transform with its range check: `None` is a numeric
/// failure (some coordinate left the representable range).
pub open spec fn spec_affine_checked(l: LinearV, x: Seq<i64>) -> Option<Seq<i64>> {
    let y = spec_affine(l, x);
    if all_in_val_range(y) {
        Some(Seq::new(y.len(), |j: int| y[j] as i64))
    } else {
        None
    }
}

impl LinearLayer {
    /// Builds a zero-initialised layer; the numeric engine overwrites
    /// the parameters with its own initialisation before training.
    pub fn zeros(out_dim: usize, in_dim: usize) -> (r: LinearLayer)
        requires
            1 <= out_dim <= DIM_MAX,
            1 <= in_dim <= DIM_MAX,
        ensures
            lin_wf(r@, in_dim as int),
            lin_out_dim(r@) == out_dim as int,
            forall|j: int| 0 <= j < out_dim as int ==> #[trigger] r@.bias[j] == 0,
            forall|j: int, k: int|
                0 <= j < out_dim as int && 0 <= k < in_dim as int ==> #[trigger] r@.weight[j][k]
                    == 0,
    {
        let mut weight: Vec<Vec<i64>> = Vec::new();
        let mut bias: Vec<i64> = Vec::new();
        let mut j: usize = 0;
        while j < out_dim
            invariant
                j <= out_dim,
                in_dim >= 1,
                weight@.len() == j as int,
                bias@.len() == j as int,
                forall|a: int|
                    0 <= a < j as int ==> (#[trigger] weight@[a])@ =~= Seq::new(
                        in_dim as nat,
                        |k: int| 0i64,
                    ),
                forall|a: int| 0 <= a < j as int ==> #[trigger] bias@[a] == 0,
            decreases out_dim - j,
        {
            let mut row: Vec<i64> = Vec::new();
            let mut k: usize = 0;
            while k < in_dim
                invariant
                    k <= in_dim,
                    row@.len() == k as int,
                    forall|a: int| 0 <= a < k as int ==> #[trigger] row@[a] == 0,
                decreases in_dim - k,
            {
                row.push(0);
                k = k + 1;
            }
            proof {
                assert(row@ =~= Seq::new(in_dim as nat, |k: int| 0i64));
            }
            weight.push(row);
            bias.push(0);
            j = j + 1;
        }
        LinearLayer { weight, bias }
    }

    /// `y = W x + b`, exact, or `Numeric` when a coordinate overflows
    /// the activation range.
    pub fn forward(&self, x: &Vec<i64>) -> (r: Result<Vec<i64>, MorError>)
        requires
            lin_wf(self@, x@.len() as int),
            bounded_seq(x@),
        ensures
            match r {
                Ok(y) => {
                    &&& spec_affine_checked(self@, x@) == Some(y@)
                    &&& y@.len() == lin_out_dim(self@)
                    &&& bounded_seq(y@)
                },
                Err(e) => {
                    &&& spec_affine_checked(self@, x@) is None
                    &&& e == MorError::Numeric
                },
            },
    {
        let ghost lv = self@;
        let m = self.weight.len();
        let mut out: Vec<i64> = Vec::new();
        let mut j: usize = 0;
        while j < m
            invariant
                j <= m,
                m == self.weight@.len(),
                lv == self@,
                lin_wf(lv, x@.len() as int),
                bounded_seq(x@),
                m == lv.weight.len(),
                out@.len() == j as int,
                forall|k: int|
                    0 <= k < j as int ==> #[trigger] out@[k] as int == spec_affine(lv, x@)[k],
                forall|k: int| 0 <= k < j as int ==> in_val_range(#[trigger] out@[k] as int),
            decreases m - j,
        {
            proof {
                assert(lv.weight[j as int] == self.weight@[j as int]@);
            }
            let d = dot(&self.weight[j], x);
            let y = d + self.bias[j];
            if y < -VAL_MAX || y > VAL_MAX {
                proof {
                    assert(spec_affine(lv, x@)[j as int] == y as int);
                    assert(!all_in_val_range(spec_affine(lv, x@)));
                }
                return Err(MorError::Numeric);
            }
            out.push(y);
            j = j + 1;
        }
        proof {
            assert forall|k: int|
                0 <= k < spec_affine(lv, x@).len() implies in_val_range(
                #[trigger] spec_affine(lv, x@)[k],
            ) by {
                assert(out@[k] as int == spec_affine(lv, x@)[k]);
                assert(in_val_range(out@[k] as int));
            }
            assert(out@ =~= Seq::new(
                spec_affine(lv, x@).len(),
                |k: int| spec_affine(lv, x@)[k] as i64,
            ));
        }
        Ok(out)
    }
}

} // verus!
