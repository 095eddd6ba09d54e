//! The per-kernel latency cost model: a linear model over a fixed feature
//! expansion of the problem shape, trained offline by exact least squares
//! and evaluated at dispatch time.
//!
//! All latencies are integer picoseconds. Model parameters are fixed-point:
//! a stored value is `SCALE` times the parameter's value in picoseconds per
//! feature unit, truncated toward zero.

use vstd::prelude::*;
use vstd::string::StrSliceExecFns;
use vstd::string::StringSliceAdditionalSpecFns;
use crate::dataset::Dataset;
use crate::dataset::Sample;
use crate::kernel::MicroKernel;

verus! {

/// Largest problem-shape coordinate (m, k, n) and tile dimension (mr, nr)
/// the model arithmetic accepts.
pub const MAX_SHAPE: usize = 4096;

/// Fixed-point scale of the stored model parameters.
pub const SCALE: i128 = 1_000_000;

/// Largest latency magnitude, in picoseconds, a training sample may carry.
pub const Y_CAP: i64 = 0x800_0000_0000;

/// Largest number of samples one training run accepts for one kernel.
pub const MAX_SAMPLES: usize = 1_000_000;

/// A trained cost model for one kernel: the tile shape it was fitted for,
/// and the fixed-point intercept and coefficients of the linear model.
#[derive(Clone, PartialEq, Eq, Debug)]
pub struct CostModel {
    pub mr: usize,
    pub nr: usize,
    pub intercept: i64,
    pub coef: Vec<i64>,
}

/// The number of whole `mr x nr` result tiles the shape needs, times `k`:
/// the dominant work term of the feature expansion.
pub open spec fn tiles_term(mr: int, nr: int, m: int, k: int, n: int) -> int {
    ((m + mr - 1) / mr) * ((n + nr - 1) / nr) * k
}

/// Column `i` of the design matrix for tile shape `(mr, nr)` at problem
/// shape `(m, k, n)`: the intercept column, the three shape coordinates,
/// and the tile-work term.
pub open spec fn fval(mr: int, nr: int, m: int, k: int, n: int, i: int) -> int {
    if i == 0 {
        1
    } else if i == 1 {
        m
    } else if i == 2 {
        k
    } else if i == 3 {
        n
    } else {
        tiles_term(mr, nr, m, k, n)
    }
}

/// Every design-matrix entry for an accepted shape is in `[0, 2^48]`.
pub proof fn lemma_fval_bound(mr: int, nr: int, m: int, k: int, n: int, i: int)
    requires
        1 <= mr <= MAX_SHAPE,
        1 <= nr <= MAX_SHAPE,
        0 <= m <= MAX_SHAPE,
        0 <= k <= MAX_SHAPE,
        0 <= n <= MAX_SHAPE,
        0 <= i <= 4,
    ensures
        0 <= fval(mr, nr, m, k, n, i) <= 0x1_0000_0000_0000,
{
    lemma_ceil_div_bound(m, mr);
    lemma_ceil_div_bound(n, nr);
    assert(0 <= tiles_term(mr, nr, m, k, n) <= 0x1_0000_0000_0000) by (nonlinear_arith)
        requires
            0 <= (m + mr - 1) / mr <= MAX_SHAPE,
            0 <= (n + nr - 1) / nr <= MAX_SHAPE,
            0 <= k <= MAX_SHAPE,
            tiles_term(mr, nr, m, k, n) == ((m + mr - 1) / mr) * ((n + nr - 1) / nr) * k,
            MAX_SHAPE == 4096,
    ;
}

/// Ceiling division of a shape coordinate by a tile dimension stays within
/// the coordinate's own range.
pub proof fn lemma_ceil_div_bound(m: int, mr: int)
    requires
        0 <= m,
        1 <= mr,
    ensures
        0 <= (m + mr - 1) / mr,
        (m + mr - 1) / mr <= m,
{
    vstd::arithmetic::div_mod::lemma_fundamental_div_mod(m + mr - 1, mr);
    assert(0 <= (m + mr - 1) / mr && (m + mr - 1) / mr <= m) by (nonlinear_arith)
        requires
            0 <= m,
            1 <= mr,
            m + mr - 1 == mr * ((m + mr - 1) / mr) + ((m + mr - 1) % mr),
            0 <= (m + mr - 1) % mr < mr,
    ;
}

/// The feature vector shared by training and prediction: `m`, `k`, `n`, and
/// the tile-work term, in that order (the intercept column is prepended by
/// the training step itself).
pub fn features(mr: usize, nr: usize, m: usize, k: usize, n: usize) -> (f: Vec<i64>)
    requires
        1 <= mr <= MAX_SHAPE,
        1 <= nr <= MAX_SHAPE,
        m <= MAX_SHAPE,
        k <= MAX_SHAPE,
        n <= MAX_SHAPE,
    ensures
        f@.len() == 4,
        forall|i: int|
            0 <= i < 4 ==> f@[i] == fval(mr as int, nr as int, m as int, k as int, n as int, i
                + 1),
{
    let cm = (m + mr - 1) / mr;
    let cn = (n + nr - 1) / nr;
    proof {
        lemma_ceil_div_bound(m as int, mr as int);
        lemma_ceil_div_bound(n as int, nr as int);
    }
    proof {
        assert(cm as int * cn as int * k as int <= 0x1_0000_0000_0000 && cm as int * cn as int
            <= 0x1000_0000 && 0 <= cm as int * cn as int * k as int && 0 <= cm as int
            * cn as int) by (nonlinear_arith)
            requires
                0 <= cm as int <= 4096,
                0 <= cn as int <= 4096,
                0 <= k as int <= 4096,
        ;
    }
    let tw = (cm as u64) * (cn as u64) * (k as u64);
    let mut f: Vec<i64> = Vec::new();
    f.push(m as i64);
    f.push(k as i64);
    f.push(n as i64);
    f.push(tw as i64);
    f
}

/// The dot product of the first `t` model coefficients with the feature
/// vector at `(m, k, n)`.
pub open spec fn dot_to(model: CostModel, m: int, k: int, n: int, t: int) -> int
    decreases t,
{
    if t <= 0 {
        0
    } else {
        dot_to(model, m, k, n, t - 1) + model.coef@[t - 1] * fval(
            model.mr as int,
            model.nr as int,
            m,
            k,
            n,
            t,
        )
    }
}

/// Truncating division, as the machine divides: toward zero.
pub open spec fn tdiv(a: int, b: int) -> int {
    if a >= 0 {
        a / b
    } else {
        -((-a) / b)
    }
}

impl CostModel {
    /// A model fits its kernel's arithmetic limits and carries one
    /// coefficient per feature.
    pub open spec fn wf(self) -> bool {
        self.coef@.len() == 4 && 1 <= self.mr <= MAX_SHAPE && 1 <= self.nr <= MAX_SHAPE
    }

    /// The model's latency estimate in picoseconds: intercept plus the
    /// coefficient-feature dot product, de-scaled with truncation toward
    /// zero. Not clamped: a poorly fitted model may predict a negative
    /// latency, and callers needing positivity must clamp themselves.
    pub open spec fn spec_predict(self, m: int, k: int, n: int) -> int {
        tdiv(self.intercept + dot_to(self, m, k, n, 4), SCALE as int)
    }

    /// Predicted wall-clock cost, in picoseconds, of running the kernel on
    /// an `(m, k, n)` matmul.
    pub fn predict(&self, m: usize, k: usize, n: usize) -> (ps: i128)
        requires
            self.wf(),
            m <= MAX_SHAPE,
            k <= MAX_SHAPE,
            n <= MAX_SHAPE,
        ensures
            ps == self.spec_predict(m as int, k as int, n as int),
    {
        let f = features(self.mr, self.nr, m, k, n);
        let mut acc: i128 = self.intercept as i128;
        let mut t: usize = 0;
        while t < 4
            invariant
                self.wf(),
                m <= MAX_SHAPE,
                k <= MAX_SHAPE,
                n <= MAX_SHAPE,
                t <= 4,
                f@.len() == 4,
                forall|i: int|
                    0 <= i < 4 ==> f@[i] == fval(self.mr as int, self.nr as int, m as int, k as int,
                        n as int, i + 1),
                acc == self.intercept + dot_to(*self, m as int, k as int, n as int, t as int),
                -0x8000_0000_0000_0000 - (t as int) * 0x1_0000_0000_0000_0000_0000_0000_0000
                    <= acc <= 0x8000_0000_0000_0000 + (t as int)
                    * 0x1_0000_0000_0000_0000_0000_0000_0000,
            decreases 4 - t,
        {
            proof {
                lemma_fval_bound(self.mr as int, self.nr as int, m as int, k as int, n as int,
                    t + 1);
                crate::storage::lemma_mul_bound(
                    self.coef@[t as int] as int,
                    f@[t as int] as int,
                    0x8000_0000_0000_0000,
                    0x1_0000_0000_0000,
                );
            }
            let prod = (self.coef[t] as i128) * (f[t] as i128);
            acc = acc + prod;
            t = t + 1;
        }
        let neg = acc < 0;
        let mag: u128 = if neg {
            (-acc) as u128
        } else {
            acc as u128
        };
        let q = mag / 1_000_000u128;
        if neg {
            -(q as i128)
        } else {
            q as i128
        }
    }
}

/// The prediction of a trained model is a pure function of the tile shape,
/// the model parameters, and the problem shape: two models with equal
/// parameters predict equal latencies for every shape. With `train`'s own
/// contract, which pins each parameter to a function of the dataset, this
/// gives that `predict(train(dataset, kernel), m, k, n)` is deterministic.
pub proof fn lemma_predict_deterministic(m1: CostModel, m2: CostModel, m: int, k: int, n: int)
    requires
        m1.mr == m2.mr,
        m1.nr == m2.nr,
        m1.intercept == m2.intercept,
        m1.coef@ == m2.coef@,
    ensures
        m1.spec_predict(m, k, n) == m2.spec_predict(m, k, n),
{
    assert forall|t: int| 0 <= t <= 4 implies dot_to(m1, m, k, n, t) == dot_to(m2, m, k, n, t) by {
        lemma_dot_to_congruence(m1, m2, m, k, n, t);
    }
}

/// Training then predicting is a pure function of the dataset, the kernel
/// and the problem shape: any two models that `train`'s contract admits for
/// the same dataset and kernel predict the same latency at every shape.
pub proof fn lemma_trained_prediction_deterministic(
    dsv: Seq<Sample>,
    name: Seq<u8>,
    m1: CostModel,
    m2: CostModel,
    m: int,
    k: int,
    n: int,
)
    requires
        m1.wf(),
        m2.wf(),
        m1.mr == m2.mr,
        m1.nr == m2.nr,
        train_params(dsv, name, m1.mr as int, m1.nr as int) == Result::<
            Seq<int>,
            TrainError,
        >::Ok(model_params(m1)),
        train_params(dsv, name, m1.mr as int, m1.nr as int) == Result::<
            Seq<int>,
            TrainError,
        >::Ok(model_params(m2)),
    ensures
        m1.spec_predict(m, k, n) == m2.spec_predict(m, k, n),
{
    let p1 = model_params(m1);
    let p2 = model_params(m2);
    assert(p1 == p2);
    assert(p1[0] == m1.intercept as int && p2[0] == m2.intercept as int);
    assert(m1.coef@ =~= m2.coef@) by {
        assert forall|i: int| 0 <= i < 4 implies m1.coef@[i] == m2.coef@[i] by {
            assert(p1[i + 1] == m1.coef@[i] as int && p2[i + 1] == m2.coef@[i] as int);
        }
    }
    lemma_predict_deterministic(m1, m2, m, k, n);
}

proof fn lemma_dot_to_congruence(m1: CostModel, m2: CostModel, m: int, k: int, n: int, t: int)
    requires
        m1.mr == m2.mr,
        m1.nr == m2.nr,
        m1.coef@ == m2.coef@,
    ensures
        dot_to(m1, m, k, n, t) == dot_to(m2, m, k, n, t),
    decreases t,
{
    if t > 0 {
        lemma_dot_to_congruence(m1, m2, m, k, n, t - 1);
    }
}

/// Why a training run failed.
#[derive(Clone, Copy, PartialEq, Eq, Structural, Debug)]
pub enum TrainError {
    /// Fewer matching samples than model parameters plus one: the
    /// regression would be rank-deficient.
    NotEnoughSamples,
    /// More matching samples than the fixed-width arithmetic accepts.
    TooManySamples,
    /// A matching sample's shape or latency is outside the arithmetic
    /// limits.
    SampleOutOfRange,
    /// The normal matrix is singular: the samples do not determine the
    /// parameters.
    Singular,
    /// An intermediate value of the exact solve left the fixed-width range.
    ArithmeticOverflow,
}

/// The samples of the dataset whose kernel name matches, in dataset order.
pub open spec fn matching_samples(ds: Seq<Sample>, name: Seq<u8>) -> Seq<Sample>
    decreases ds.len(),
{
    if ds.len() == 0 {
        Seq::empty()
    } else {
        let pre = matching_samples(ds.drop_last(), name);
        if ds.last().name@ == name {
            pre.push(ds.last())
        } else {
            pre
        }
    }
}

/// A sample the training arithmetic accepts.
pub open spec fn sample_ok(s: Sample) -> bool {
    s.m <= MAX_SHAPE && s.k <= MAX_SHAPE && s.n <= MAX_SHAPE && -Y_CAP <= s.y <= Y_CAP
}

/// Design-matrix entry: column `i` of the row of sample `t`.
pub open spec fn design(ms: Seq<Sample>, mr: int, nr: int, t: int, i: int) -> int {
    fval(mr, nr, ms[t].m as int, ms[t].k as int, ms[t].n as int, i)
}

/// Normal-matrix entry `(i, j)` summed over the first `t` samples.
pub open spec fn xtx_to(ms: Seq<Sample>, mr: int, nr: int, i: int, j: int, t: int) -> int
    decreases t,
{
    if t <= 0 {
        0
    } else {
        xtx_to(ms, mr, nr, i, j, t - 1) + design(ms, mr, nr, t - 1, i) * design(
            ms,
            mr,
            nr,
            t - 1,
            j,
        )
    }
}

/// Right-hand-side entry `i` summed over the first `t` samples.
pub open spec fn xty_to(ms: Seq<Sample>, mr: int, nr: int, i: int, t: int) -> int
    decreases t,
{
    if t <= 0 {
        0
    } else {
        xty_to(ms, mr, nr, i, t - 1) + design(ms, mr, nr, t - 1, i) * (ms[t - 1].y as int)
    }
}

/// The 5 x 5 normal matrix `X^T X` of the matching samples.
pub open spec fn xtx_mat(ms: Seq<Sample>, mr: int, nr: int) -> Seq<Seq<int>> {
    Seq::new(5, |i: int| Seq::new(5, |j: int| xtx_to(ms, mr, nr, i, j, ms.len() as int)))
}

/// The right-hand side `X^T y` of the normal equations.
pub open spec fn xty_vec(ms: Seq<Sample>, mr: int, nr: int) -> Seq<int> {
    Seq::new(5, |i: int| xty_to(ms, mr, nr, i, ms.len() as int))
}

pub open spec fn in_i128(v: int) -> bool {
    i128::MIN <= v <= i128::MAX
}

/// The machine's checked product, sum, difference.
pub open spec fn mul_c(a: int, b: int) -> Option<int> {
    if in_i128(a * b) {
        Option::Some(a * b)
    } else {
        Option::None
    }
}

pub open spec fn add_c(a: int, b: int) -> Option<int> {
    if in_i128(a + b) {
        Option::Some(a + b)
    } else {
        Option::None
    }
}

pub open spec fn sub_c(a: int, b: int) -> Option<int> {
    if in_i128(a - b) {
        Option::Some(a - b)
    } else {
        Option::None
    }
}

/// The row with column `j` removed.
pub open spec fn row_minor(row: Seq<int>, j: int) -> Seq<int> {
    row.subrange(0, j) + row.subrange(j + 1, row.len() as int)
}

/// The first minor of the matrix at row 0, column `j`.
pub open spec fn mat_minor(m: Seq<Seq<int>>, j: int) -> Seq<Seq<int>> {
    Seq::new((m.len() - 1) as nat, |rr: int| row_minor(m[rr + 1], j))
}

pub open spec fn is_square(m: Seq<Seq<int>>) -> bool {
    forall|i: int| 0 <= i < m.len() ==> (#[trigger] m[i]).len() == m.len()
}

/// Determinant by cofactor expansion along the first row, computed exactly
/// as the machine computes it: left to right, every product and running sum
/// checked against the `i128` range; `None` is an overflow somewhere.
pub open spec fn det_checked(m: Seq<Seq<int>>) -> Option<int>
    decreases m.len(), m.len() + 1,
{
    if m.len() == 0 {
        Option::Some(1)
    } else {
        cof_checked(m, 0, 0)
    }
}

/// The running cofactor expansion: terms `j` onward added to `acc`.
pub open spec fn cof_checked(m: Seq<Seq<int>>, j: int, acc: int) -> Option<int>
    decreases m.len(), m.len() - j,
{
    if j < 0 || j >= m.len() {
        Option::Some(acc)
    } else {
        match det_checked(mat_minor(m, j)) {
            Option::None => Option::None,
            Option::Some(md) => match mul_c(m[0][j], md) {
                Option::None => Option::None,
                Option::Some(t) => {
                    let acc2 = if j % 2 == 0 {
                        add_c(acc, t)
                    } else {
                        sub_c(acc, t)
                    };
                    match acc2 {
                        Option::None => Option::None,
                        Option::Some(a) => cof_checked(m, j + 1, a),
                    }
                },
            },
        }
    }
}

/// The matrix with column `c` replaced by `b`.
pub open spec fn subst_col(m: Seq<Seq<int>>, b: Seq<int>, c: int) -> Seq<Seq<int>> {
    Seq::new(m.len(), |i: int| m[i].update(c, b[i]))
}

/// The Cramer numerators of the first `j` parameters: the determinant of
/// the normal matrix with column `c` replaced by the right-hand side, for
/// `c` up to `j`.
pub open spec fn cramer_dets(m: Seq<Seq<int>>, b: Seq<int>, j: int) -> Result<Seq<int>, TrainError>
    decreases j,
{
    if j <= 0 {
        Result::Ok(Seq::empty())
    } else {
        match cramer_dets(m, b, j - 1) {
            Result::Err(e) => Result::Err(e),
            Result::Ok(pre) => match det_checked(subst_col(m, b, j - 1)) {
                Option::None => Result::Err(TrainError::ArithmeticOverflow),
                Option::Some(v) => Result::Ok(pre.push(v)),
            },
        }
    }
}

/// `num * SCALE / d`, truncated toward zero, as the machine computes it in
/// sign-magnitude form; `None` when an intermediate magnitude leaves the
/// `u128` range or the result does not fit the stored parameter type.
pub open spec fn scale_to_fixed(num: int, d: int) -> Option<int> {
    let nm = if num >= 0 {
        num
    } else {
        -num
    };
    let dm = if d >= 0 {
        d
    } else {
        -d
    };
    let qm = nm / dm;
    let rm = nm % dm;
    if qm * (SCALE as int) > u128::MAX {
        Option::None
    } else if rm * (SCALE as int) > u128::MAX {
        Option::None
    } else if qm * (SCALE as int) + (rm * (SCALE as int)) / dm > i64::MAX {
        Option::None
    } else {
        let mag = qm * (SCALE as int) + (rm * (SCALE as int)) / dm;
        Option::Some(
            if (num < 0) != (d < 0) {
                -mag
            } else {
                mag
            },
        )
    }
}

/// The first `j` parameters scaled to fixed point.
pub open spec fn scale_all(nums: Seq<int>, d: int, j: int) -> Option<Seq<int>>
    decreases j,
{
    if j <= 0 {
        Option::Some(Seq::empty())
    } else {
        match scale_all(nums, d, j - 1) {
            Option::None => Option::None,
            Option::Some(pre) => match scale_to_fixed(nums[j - 1], d) {
                Option::None => Option::None,
                Option::Some(v) => Option::Some(pre.push(v)),
            },
        }
    }
}

/// What training returns for a dataset and a kernel: the five fixed-point
/// parameters (intercept first), or the error. The parameters are the exact
/// rational solution of the normal equations `X^T X p = X^T y`, by Cramer's
/// rule, scaled to fixed point with truncation: parameter `c` is
/// `det_c * SCALE / det` where `det_c` substitutes the right-hand side for
/// column `c` of the normal matrix.
pub open spec fn train_params(ds: Seq<Sample>, name: Seq<u8>, mr: int, nr: int) -> Result<
    Seq<int>,
    TrainError,
> {
    let ms = matching_samples(ds, name);
    if ms.len() < 5 {
        Result::Err(TrainError::NotEnoughSamples)
    } else if ms.len() > MAX_SAMPLES {
        Result::Err(TrainError::TooManySamples)
    } else if exists|t: int| 0 <= t < ms.len() && !sample_ok(ms[t]) {
        Result::Err(TrainError::SampleOutOfRange)
    } else {
        let xm = xtx_mat(ms, mr, nr);
        let xv = xty_vec(ms, mr, nr);
        match det_checked(xm) {
            Option::None => Result::Err(TrainError::ArithmeticOverflow),
            Option::Some(d) => if d == 0 {
                Result::Err(TrainError::Singular)
            } else {
                match cramer_dets(xm, xv, 5) {
                    Result::Err(e) => Result::Err(e),
                    Result::Ok(ns) => match scale_all(ns, d, 5) {
                        Option::None => Result::Err(TrainError::ArithmeticOverflow),
                        Option::Some(ps) => Result::Ok(ps),
                    },
                }
            },
        }
    }
}

/// Relies on i128::unsigned_abs of the standard library: the absolute
/// value of the argument, computed without wrapping or panicking, also for
/// the smallest representable value.
pub assume_specification[ i128::unsigned_abs ](x: i128) -> (r: u128)
    ensures
        r as int == (if x >= 0 {
            x as int
        } else {
            -(x as int)
        }),
;

/// The integer contents of a sequence of machine words.
pub open spec fn row_int(s: Seq<i128>) -> Seq<int> {
    Seq::new(s.len(), |i: int| s[i] as int)
}

/// The integer contents of a matrix of machine words.
pub open spec fn mat_of(m: Vec<Vec<i128>>) -> Seq<Seq<int>> {
    Seq::new(m@.len(), |i: int| row_int((m@[i])@))
}

proof fn lemma_row_int_push(s: Seq<i128>, v: i128)
    ensures
        row_int(s.push(v)) =~= row_int(s).push(v as int),
{
}

pub open spec fn opt_int(o: Option<i128>) -> Option<int> {
    match o {
        Option::Some(v) => Option::Some(v as int),
        Option::None => Option::None,
    }
}

pub open spec fn opt64_int(o: Option<i64>) -> Option<int> {
    match o {
        Option::Some(v) => Option::Some(v as int),
        Option::None => Option::None,
    }
}

/// The five fixed-point parameters a model stores, intercept first.
pub open spec fn model_params(m: CostModel) -> Seq<int> {
    Seq::new(
        5,
        |i: int|
            if i == 0 {
                m.intercept as int
            } else {
                m.coef@[i - 1] as int
            },
    )
}

fn fval_exec(mr: usize, nr: usize, m: usize, k: usize, n: usize, i: usize) -> (v: i64)
    requires
        1 <= mr <= MAX_SHAPE,
        1 <= nr <= MAX_SHAPE,
        m <= MAX_SHAPE,
        k <= MAX_SHAPE,
        n <= MAX_SHAPE,
        i <= 4,
    ensures
        v as int == fval(mr as int, nr as int, m as int, k as int, n as int, i as int),
        0 <= v <= 0x1_0000_0000_0000,
{
    proof {
        lemma_fval_bound(mr as int, nr as int, m as int, k as int, n as int, i as int);
    }
    if i == 0 {
        1
    } else if i == 1 {
        m as i64
    } else if i == 2 {
        k as i64
    } else if i == 3 {
        n as i64
    } else {
        let cm = (m + mr - 1) / mr;
        let cn = (n + nr - 1) / nr;
        proof {
            lemma_ceil_div_bound(m as int, mr as int);
            lemma_ceil_div_bound(n as int, nr as int);
            assert(cm as int * cn as int * k as int <= 0x1_0000_0000_0000 && cm as int * cn as int
                <= 0x1000_0000 && 0 <= cm as int * cn as int) by (nonlinear_arith)
                requires
                    0 <= cm as int <= 4096,
                    0 <= cn as int <= 4096,
                    0 <= k as int <= 4096,
            ;
        }
        ((cm as u64) * (cn as u64) * (k as u64)) as i64
    }
}

/// Positions in the dataset of the samples whose name matches, in order.
fn matching_indices(ds: &Dataset, name: &Vec<u8>) -> (idxs: Vec<usize>)
    ensures
        idxs@.len() == matching_samples(ds.0@, name@).len(),
        forall|t: int|
            0 <= t < idxs@.len() ==> idxs@[t] < ds.0@.len() && ds.0@[#[trigger] idxs@[t] as int]
                == matching_samples(ds.0@, name@)[t],
{
    let mut idxs: Vec<usize> = Vec::new();
    let mut i: usize = 0;
    while i < ds.0.len()
        invariant
            i <= ds.0@.len(),
            idxs@.len() == matching_samples(ds.0@.subrange(0, i as int), name@).len(),
            forall|t: int|
                0 <= t < idxs@.len() ==> idxs@[t] < i && ds.0@[#[trigger] idxs@[t] as int]
                    == matching_samples(ds.0@.subrange(0, i as int), name@)[t],
        decreases ds.0@.len() - i,
    {
        let matches_name = crate::arch::bytes_eq(&ds.0[i].name, name);
        proof {
            assert(ds.0@.subrange(0, i + 1).drop_last() =~= ds.0@.subrange(0, i as int));
            assert(ds.0@.subrange(0, i + 1).last() == ds.0@[i as int]);
        }
        if matches_name {
            idxs.push(i);
        }
        i = i + 1;
    }
    proof {
        assert(ds.0@.subrange(0, ds.0@.len() as int) =~= ds.0@);
    }
    idxs
}

/// Determinant of a square matrix of machine words, by first-row cofactor
/// expansion with checked arithmetic; `None` reports overflow.
fn det_exec(m: &Vec<Vec<i128>>) -> (r: Option<i128>)
    requires
        is_square(mat_of(*m)),
    ensures
        opt_int(r) == det_checked(mat_of(*m)),
    decreases m@.len(),
{
    let n = m.len();
    if n == 0 {
        return Option::Some(1);
    }
    let ghost mv = mat_of(*m);
    let mut acc: i128 = 0;
    let mut j: usize = 0;
    while j < n
        invariant
            is_square(mv),
            mv == mat_of(*m),
            n == m@.len(),
            1 <= n,
            j <= n,
            det_checked(mv) == cof_checked(mv, j as int, acc as int),
        decreases n - j,
    {
        let mut mm: Vec<Vec<i128>> = Vec::new();
        let mut rr: usize = 1;
        while rr < n
            invariant
                is_square(mv),
                mv == mat_of(*m),
                n == m@.len(),
                1 <= rr <= n,
                j < n,
                mm@.len() == rr - 1,
                forall|q: int|
                    0 <= q < rr - 1 ==> row_int((#[trigger] mm@[q])@) == row_minor(
                        mv[q + 1],
                        j as int,
                    ),
            decreases n - rr,
        {
            let mut newrow: Vec<i128> = Vec::new();
            let mut c: usize = 0;
            while c < n
                invariant
                    is_square(mv),
                    mv == mat_of(*m),
                    n == m@.len(),
                    1 <= rr < n,
                    j < n,
                    c <= n,
                    row_int(newrow@) == (if c <= j {
                        mv[rr as int].subrange(0, c as int)
                    } else {
                        mv[rr as int].subrange(0, j as int) + mv[rr as int].subrange(
                            j + 1,
                            c as int,
                        )
                    }),
                decreases n - c,
            {
                proof {
                    assert(mv[rr as int].len() == n);
                    assert(mv[rr as int][c as int] == m@[rr as int]@[c as int]);
                }
                if c != j {
                    let ghost pre = newrow@;
                    newrow.push(m[rr][c]);
                    proof {
                        lemma_row_int_push(pre, m@[rr as int]@[c as int]);
                        if c < j {
                            assert(row_int(newrow@) =~= mv[rr as int].subrange(0, c + 1));
                        } else {
                            assert(row_int(newrow@) =~= mv[rr as int].subrange(0, j as int)
                                + mv[rr as int].subrange(j + 1, c + 1));
                        }
                    }
                } else {
                    proof {
                        assert(row_int(newrow@) =~= mv[rr as int].subrange(0, j as int)
                            + mv[rr as int].subrange(j + 1, j + 1));
                    }
                }
                c = c + 1;
            }
            proof {
                assert(row_int(newrow@) =~= row_minor(mv[rr as int], j as int));
            }
            mm.push(newrow);
            proof {
                assert(forall|q: int|
                    0 <= q < rr ==> row_int((#[trigger] mm@[q])@) == row_minor(
                        mv[q + 1],
                        j as int,
                    ));
            }
            rr = rr + 1;
        }
        proof {
            assert(mat_of(mm) =~= mat_minor(mv, j as int)) by {
                assert(mat_of(mm).len() == n - 1);
                assert(forall|q: int|
                    0 <= q < n - 1 ==> #[trigger] mat_of(mm)[q] == row_minor(mv[q + 1], j as int));
            }
            assert(is_square(mat_minor(mv, j as int))) by {
                assert(forall|q: int|
                    0 <= q < n - 1 ==> (#[trigger] mat_minor(mv, j as int)[q]).len() == n - 1);
            }
        }
        let md = det_exec(&mm);
        match md {
            Option::None => {
                return Option::None;
            },
            Option::Some(mdv) => {
                proof {
                    assert(mv[0][j as int] == m@[0]@[j as int]);
                }
                match m[0][j].checked_mul(mdv) {
                    Option::None => {
                        return Option::None;
                    },
                    Option::Some(term) => {
                        let acc2 = if j % 2 == 0 {
                            acc.checked_add(term)
                        } else {
                            acc.checked_sub(term)
                        };
                        match acc2 {
                            Option::None => {
                                return Option::None;
                            },
                            Option::Some(a) => {
                                acc = a;
                            },
                        }
                    },
                }
            },
        }
        j = j + 1;
    }
    Option::Some(acc)
}

/// The normal matrix with column `c` replaced by the right-hand side.
fn subst_exec(xm: &Vec<Vec<i128>>, xv: &Vec<i128>, c: usize) -> (r: Vec<Vec<i128>>)
    requires
        xm@.len() == xv@.len(),
        forall|i: int| 0 <= i < xm@.len() ==> (#[trigger] xm@[i])@.len() == xm@.len(),
        c < xm@.len(),
    ensures
        mat_of(r) == subst_col(mat_of(*xm), row_int(xv@), c as int),
{
    let n = xm.len();
    let mut r: Vec<Vec<i128>> = Vec::new();
    let mut i: usize = 0;
    while i < n
        invariant
            n == xm@.len(),
            n == xv@.len(),
            forall|q: int| 0 <= q < n ==> (#[trigger] xm@[q])@.len() == n,
            c < n,
            i <= n,
            r@.len() == i,
            forall|q: int|
                0 <= q < i ==> row_int((#[trigger] r@[q])@) == mat_of(*xm)[q].update(
                    c as int,
                    row_int(xv@)[q],
                ),
        decreases n - i,
    {
        let mut newrow: Vec<i128> = Vec::new();
        let mut cc: usize = 0;
        while cc < n
            invariant
                n == xm@.len(),
                n == xv@.len(),
                forall|q: int| 0 <= q < n ==> (#[trigger] xm@[q])@.len() == n,
                c < n,
                i < n,
                cc <= n,
                row_int(newrow@) == mat_of(*xm)[i as int].update(
                    c as int,
                    row_int(xv@)[i as int],
                ).subrange(0, cc as int),
            decreases n - cc,
        {
            let v = if cc == c {
                xv[i]
            } else {
                xm[i][cc]
            };
            let ghost pre = newrow@;
            newrow.push(v);
            proof {
                lemma_row_int_push(pre, v);
                let target = mat_of(*xm)[i as int].update(c as int, row_int(xv@)[i as int]);
                assert(row_int(newrow@) =~= target.subrange(0, cc + 1));
            }
            cc = cc + 1;
        }
        proof {
            let target = mat_of(*xm)[i as int].update(c as int, row_int(xv@)[i as int]);
            assert(target.subrange(0, n as int) =~= target);
        }
        r.push(newrow);
        i = i + 1;
    }
    proof {
        assert(mat_of(r) =~= subst_col(mat_of(*xm), row_int(xv@), c as int));
    }
    r
}

proof fn lemma_cramer_err_persists(m: Seq<Seq<int>>, b: Seq<int>, j: int, j2: int)
    requires
        0 <= j <= j2,
        cramer_dets(m, b, j) is Err,
    ensures
        cramer_dets(m, b, j2) == cramer_dets(m, b, j),
    decreases j2 - j,
{
    if j2 > j {
        lemma_cramer_err_persists(m, b, j, j2 - 1);
    }
}

proof fn lemma_scale_none_persists(nums: Seq<int>, d: int, j: int, j2: int)
    requires
        0 <= j <= j2,
        scale_all(nums, d, j) is None,
    ensures
        scale_all(nums, d, j2) is None,
    decreases j2 - j,
{
    if j2 > j {
        lemma_scale_none_persists(nums, d, j, j2 - 1);
    }
}

/// `num * SCALE / d` truncated toward zero, in sign-magnitude machine
/// arithmetic; `None` when a magnitude leaves `u128` or the result does not
/// fit the stored parameter width.
fn scale_fixed_exec(num: i128, d: i128) -> (r: Option<i64>)
    requires
        d != 0,
    ensures
        opt64_int(r) == scale_to_fixed(num as int, d as int),
{
    let neg = (num < 0) != (d < 0);
    let nm: u128 = num.unsigned_abs();
    let dm: u128 = d.unsigned_abs();
    let qm = nm / dm;
    let rm = nm % dm;
    let t1 = match qm.checked_mul(1_000_000u128) {
        Option::None => {
            return Option::None;
        },
        Option::Some(v) => v,
    };
    let t2 = match rm.checked_mul(1_000_000u128) {
        Option::None => {
            return Option::None;
        },
        Option::Some(v) => v,
    };
    let t3 = match t1.checked_add(t2 / dm) {
        Option::None => {
            return Option::None;
        },
        Option::Some(v) => v,
    };
    if t3 > 0x7fff_ffff_ffff_ffffu128 {
        return Option::None;
    }
    let mag = t3 as i64;
    if neg {
        Option::Some(-mag)
    } else {
        Option::Some(mag)
    }
}

/// The integer contents of a sequence of stored parameters.
pub open spec fn row64_int(s: Seq<i64>) -> Seq<int> {
    Seq::new(s.len(), |i: int| s[i] as int)
}

proof fn lemma_row64_int_push(s: Seq<i64>, v: i64)
    ensures
        row64_int(s.push(v)) =~= row64_int(s).push(v as int),
{
}

/// The facts train's loops carry: how the ghost values relate to the
/// arguments, and that every matching sample passed the range checks.
spec fn train_ctx(
    dsv: Seq<Sample>,
    name: Seq<u8>,
    ms: Seq<Sample>,
    mri: int,
    nri: int,
    kernel: MicroKernel,
    cnt: int,
) -> bool {
    &&& name == kernel.name@
    &&& mri == kernel.mr as int
    &&& nri == kernel.nr as int
    &&& ms == matching_samples(dsv, name)
    &&& cnt == ms.len()
    &&& 5 <= cnt <= MAX_SAMPLES as int
    &&& 1 <= kernel.mr <= MAX_SHAPE
    &&& 1 <= kernel.nr <= MAX_SHAPE
    &&& (forall|q: int| 0 <= q < ms.len() ==> sample_ok(#[trigger] ms[q]))
}

/// Fit the cost model of one kernel from the matching samples of the
/// dataset: build the normal equations of the least-squares problem over
/// the shared feature expansion and solve them exactly, by Cramer's rule in
/// checked wide arithmetic; the exact rational parameters are stored in
/// fixed point. Rank deficiency surfaces as `NotEnoughSamples` (too few
/// samples) or `Singular` (a singular normal matrix), never as a model.
pub fn train(ds: &Dataset, kernel: &MicroKernel) -> (r: Result<CostModel, TrainError>)
    requires
        1 <= kernel.mr <= MAX_SHAPE,
        1 <= kernel.nr <= MAX_SHAPE,
    ensures
        ({
            let tp = train_params(ds.0@, kernel.name@, kernel.mr as int, kernel.nr as int);
            match r {
                Result::Ok(model) => tp == Result::<Seq<int>, TrainError>::Ok(
                    model_params(model),
                ) && model.mr == kernel.mr && model.nr == kernel.nr && model.wf(),
                Result::Err(e) => tp == Result::<Seq<int>, TrainError>::Err(e),
            }
        }),
{
    let ghost name = kernel.name@;
    let ghost mri = kernel.mr as int;
    let ghost nri = kernel.nr as int;
    let ghost ms = matching_samples(ds.0@, name);
    let idxs = matching_indices(ds, &kernel.name);
    let cnt = idxs.len();
    if cnt < 5 {
        return Result::Err(TrainError::NotEnoughSamples);
    }
    if cnt > MAX_SAMPLES {
        return Result::Err(TrainError::TooManySamples);
    }
    let mut msm: Vec<usize> = Vec::new();
    let mut msk: Vec<usize> = Vec::new();
    let mut msn: Vec<usize> = Vec::new();
    let mut msy: Vec<i64> = Vec::new();
    let mut t: usize = 0;
    while t < cnt
        invariant
            cnt == idxs@.len(),
            cnt == ms.len(),
            5 <= cnt <= MAX_SAMPLES,
            name == kernel.name@,
            mri == kernel.mr as int,
            nri == kernel.nr as int,
            ms == matching_samples(ds.0@, name),
            forall|q: int|
                0 <= q < cnt ==> idxs@[q] < ds.0@.len() && ds.0@[#[trigger] idxs@[q] as int]
                    == ms[q],
            t <= cnt,
            msm@.len() == t,
            msk@.len() == t,
            msn@.len() == t,
            msy@.len() == t,
            forall|q: int| 0 <= q < t ==> sample_ok(#[trigger] ms[q]),
            forall|q: int|
                0 <= q < t ==> msm@[q] == ms[q].m && msk@[q] == ms[q].k && msn@[q] == ms[q].n
                    && msy@[q] == (#[trigger] ms[q]).y,
        decreases cnt - t,
    {
        let s = &ds.0[idxs[t]];
        if s.m > MAX_SHAPE || s.k > MAX_SHAPE || s.n > MAX_SHAPE || s.y > Y_CAP || s.y < -Y_CAP {
            proof {
                assert(!sample_ok(ms[t as int]));
                assert(exists|q: int| 0 <= q < ms.len() && !sample_ok(ms[q]));
                assert(ms.len() >= 5);
                assert(ms.len() <= MAX_SAMPLES);
                assert(train_params(ds.0@, name, mri, nri) == Result::<Seq<int>, TrainError>::Err(
                    TrainError::SampleOutOfRange,
                ));
            }
            return Result::Err(TrainError::SampleOutOfRange);
        }
        msm.push(s.m);
        msk.push(s.k);
        msn.push(s.n);
        msy.push(s.y);
        t = t + 1;
    }
    proof {
        assert(!(exists|q: int| 0 <= q < ms.len() && !sample_ok(ms[q])));
    }
    let ghost tx = xtx_mat(ms, mri, nri);
    let ghost tv = xty_vec(ms, mri, nri);
    let mut xm: Vec<Vec<i128>> = Vec::new();
    let mut i: usize = 0;
    while i < 5
        invariant
            train_ctx(ds.0@, name, ms, mri, nri, *kernel, cnt as int),
            msm@.len() == cnt,
            msk@.len() == cnt,
            msn@.len() == cnt,
            forall|q: int| 0 <= q < cnt ==> sample_ok(#[trigger] ms[q]),
            forall|q: int|
                0 <= q < cnt ==> msm@[q] == ms[q].m && msk@[q] == ms[q].k && msn@[q] == (
                #[trigger] ms[q]).n,
            tx == xtx_mat(ms, mri, nri),
            i <= 5,
            xm@.len() == i,
            forall|q: int| 0 <= q < i ==> row_int((#[trigger] xm@[q])@) == tx[q],
        decreases 5 - i,
    {
        let mut row: Vec<i128> = Vec::new();
        let mut j: usize = 0;
        while j < 5
            invariant
                train_ctx(ds.0@, name, ms, mri, nri, *kernel, cnt as int),
                msm@.len() == cnt,
                msk@.len() == cnt,
                msn@.len() == cnt,
                forall|q: int| 0 <= q < cnt ==> sample_ok(#[trigger] ms[q]),
                forall|q: int|
                    0 <= q < cnt ==> msm@[q] == ms[q].m && msk@[q] == ms[q].k && msn@[q] == (
                    #[trigger] ms[q]).n,
                tx == xtx_mat(ms, mri, nri),
                i < 5,
                j <= 5,
                row_int(row@) == tx[i as int].subrange(0, j as int),
            decreases 5 - j,
        {
            let mut s: i128 = 0;
            let mut t2: usize = 0;
            while t2 < cnt
                invariant
                    train_ctx(ds.0@, name, ms, mri, nri, *kernel, cnt as int),
                    msm@.len() == cnt,
                    msk@.len() == cnt,
                    msn@.len() == cnt,
                    forall|q: int| 0 <= q < cnt ==> sample_ok(#[trigger] ms[q]),
                    forall|q: int|
                        0 <= q < cnt ==> msm@[q] == ms[q].m && msk@[q] == ms[q].k && msn@[q] == (
                        #[trigger] ms[q]).n,
                    i < 5,
                    j < 5,
                    t2 <= cnt,
                    s == xtx_to(ms, mri, nri, i as int, j as int, t2 as int),
                    0 <= s <= (t2 as int) * 0x1_0000_0000_0000_0000_0000_0000,
                decreases cnt - t2,
            {
                proof {
                    assert(sample_ok(ms[t2 as int]));
                    assert(msm@[t2 as int] == ms[t2 as int].m && msk@[t2 as int]
                        == ms[t2 as int].k && msn@[t2 as int] == ms[t2 as int].n);
                }
                let fi = fval_exec(kernel.mr, kernel.nr, msm[t2], msk[t2], msn[t2], i);
                let fj = fval_exec(kernel.mr, kernel.nr, msm[t2], msk[t2], msn[t2], j);
                proof {
                    crate::storage::lemma_mul_bound(
                        fi as int,
                        fj as int,
                        0x1_0000_0000_0000,
                        0x1_0000_0000_0000,
                    );
                    assert(fi as int == design(ms, mri, nri, t2 as int, i as int));
                    assert(fj as int == design(ms, mri, nri, t2 as int, j as int));
                }
                let prod = (fi as i128) * (fj as i128);
                s = s + prod;
                t2 = t2 + 1;
            }
            let ghost prerow = row@;
            row.push(s);
            proof {
                lemma_row_int_push(prerow, s);
                assert(tx[i as int][j as int] == xtx_to(ms, mri, nri, i as int, j as int,
                    cnt as int));
                assert(row_int(row@) =~= tx[i as int].subrange(0, j + 1));
            }
            j = j + 1;
        }
        let ghost prem = xm@;
        xm.push(row);
        proof {
            assert(tx[i as int].subrange(0, 5) =~= tx[i as int]);
            assert(forall|q: int|
                0 <= q < i + 1 ==> row_int((#[trigger] xm@[q])@) == tx[q]);
        }
        i = i + 1;
    }
    let mut xv: Vec<i128> = Vec::new();
    let mut i2: usize = 0;
    while i2 < 5
        invariant
            train_ctx(ds.0@, name, ms, mri, nri, *kernel, cnt as int),
            msm@.len() == cnt,
            msk@.len() == cnt,
            msn@.len() == cnt,
            msy@.len() == cnt,
            forall|q: int| 0 <= q < cnt ==> sample_ok(#[trigger] ms[q]),
            forall|q: int|
                0 <= q < cnt ==> msm@[q] == ms[q].m && msk@[q] == ms[q].k && msn@[q] == ms[q].n
                    && msy@[q] == (#[trigger] ms[q]).y,
            tv == xty_vec(ms, mri, nri),
            i2 <= 5,
            row_int(xv@) == tv.subrange(0, i2 as int),
        decreases 5 - i2,
    {
        let mut s: i128 = 0;
        let mut t3: usize = 0;
        while t3 < cnt
            invariant
                train_ctx(ds.0@, name, ms, mri, nri, *kernel, cnt as int),
                msm@.len() == cnt,
                msk@.len() == cnt,
                msn@.len() == cnt,
                msy@.len() == cnt,
                forall|q: int| 0 <= q < cnt ==> sample_ok(#[trigger] ms[q]),
                forall|q: int|
                    0 <= q < cnt ==> msm@[q] == ms[q].m && msk@[q] == ms[q].k && msn@[q] == ms[q].n
                        && msy@[q] == (#[trigger] ms[q]).y,
                i2 < 5,
                t3 <= cnt,
                s == xty_to(ms, mri, nri, i2 as int, t3 as int),
                -((t3 as int) * 0x1_0000_0000_0000_0000_0000_0000) <= s <= (t3 as int)
                    * 0x1_0000_0000_0000_0000_0000_0000,
            decreases cnt - t3,
        {
            proof {
                assert(sample_ok(ms[t3 as int]));
                assert(msm@[t3 as int] == ms[t3 as int].m && msk@[t3 as int] == ms[t3 as int].k
                    && msn@[t3 as int] == ms[t3 as int].n && msy@[t3 as int] == ms[t3 as int].y);
            }
            let fi = fval_exec(kernel.mr, kernel.nr, msm[t3], msk[t3], msn[t3], i2);
            proof {
                crate::storage::lemma_mul_bound(
                    msy@[t3 as int] as int,
                    fi as int,
                    Y_CAP as int,
                    0x1_0000_0000_0000,
                );
                assert(fi as int == design(ms, mri, nri, t3 as int, i2 as int));
            }
            let prod = (msy[t3] as i128) * (fi as i128);
            s = s + prod;
            t3 = t3 + 1;
        }
        let ghost prev = xv@;
        xv.push(s);
        proof {
            lemma_row_int_push(prev, s);
            assert(tv[i2 as int] == xty_to(ms, mri, nri, i2 as int, cnt as int));
            assert(row_int(xv@) =~= tv.subrange(0, i2 + 1));
        }
        i2 = i2 + 1;
    }
    proof {
        assert(mat_of(xm) =~= tx);
        assert(row_int(xv@) =~= tv);
        assert(is_square(tx)) by {
            assert(forall|q: int| 0 <= q < 5 ==> (#[trigger] tx[q]).len() == 5);
        }
    }
    let det = match det_exec(&xm) {
        Option::None => {
            return Result::Err(TrainError::ArithmeticOverflow);
        },
        Option::Some(d) => d,
    };
    if det == 0 {
        return Result::Err(TrainError::Singular);
    }
    let mut nums: Vec<i128> = Vec::new();
    proof {
        assert(row_int(nums@) =~= Seq::<int>::empty());
    }
    let mut c: usize = 0;
    while c < 5
        invariant
            train_ctx(ds.0@, name, ms, mri, nri, *kernel, cnt as int),
            det != 0,
            mat_of(xm) == tx,
            row_int(xv@) == tv,
            xm@.len() == 5,
            xv@.len() == 5,
            is_square(tx),
            tx == xtx_mat(ms, mri, nri),
            tv == xty_vec(ms, mri, nri),
            det_checked(tx) == Option::Some(det as int),
            c <= 5,
            nums@.len() == c,
            cramer_dets(tx, tv, c as int) == Result::<Seq<int>, TrainError>::Ok(row_int(nums@)),
        decreases 5 - c,
    {
        proof {
            assert(forall|q: int| 0 <= q < 5 ==> (#[trigger] xm@[q])@.len() == 5) by {
                assert(forall|q: int|
                    0 <= q < 5 ==> row_int((#[trigger] xm@[q])@).len() == tx[q].len());
            }
        }
        let sm = subst_exec(&xm, &xv, c);
        proof {
            assert(is_square(subst_col(tx, tv, c as int))) by {
                assert(forall|q: int|
                    0 <= q < 5 ==> (#[trigger] subst_col(tx, tv, c as int)[q]).len() == 5);
            }
        }
        match det_exec(&sm) {
            Option::None => {
                proof {
                    assert(cramer_dets(tx, tv, c + 1) is Err);
                    lemma_cramer_err_persists(tx, tv, c + 1, 5);
                    assert(cramer_dets(tx, tv, 5) == Result::<Seq<int>, TrainError>::Err(
                        TrainError::ArithmeticOverflow,
                    ));
                }
                return Result::Err(TrainError::ArithmeticOverflow);
            },
            Option::Some(v) => {
                let ghost pren = nums@;
                nums.push(v);
                proof {
                    lemma_row_int_push(pren, v);
                    assert(row_int(nums@) =~= row_int(pren).push(v as int));
                }
            },
        }
        c = c + 1;
    }
    let mut ps: Vec<i64> = Vec::new();
    proof {
        assert(row64_int(ps@) =~= Seq::<int>::empty());
    }
    let mut c2: usize = 0;
    while c2 < 5
        invariant
            train_ctx(ds.0@, name, ms, mri, nri, *kernel, cnt as int),
            nums@.len() == 5,
            det != 0,
            tx == xtx_mat(ms, mri, nri),
            tv == xty_vec(ms, mri, nri),
            det_checked(tx) == Option::Some(det as int),
            cramer_dets(tx, tv, 5) == Result::<Seq<int>, TrainError>::Ok(row_int(nums@)),
            c2 <= 5,
            ps@.len() == c2,
            scale_all(row_int(nums@), det as int, c2 as int) == Option::Some(row64_int(ps@)),
        decreases 5 - c2,
    {
        match scale_fixed_exec(nums[c2], det) {
            Option::None => {
                proof {
                    assert(scale_all(row_int(nums@), det as int, c2 + 1) is None);
                    lemma_scale_none_persists(row_int(nums@), det as int, c2 + 1, 5);
                }
                return Result::Err(TrainError::ArithmeticOverflow);
            },
            Option::Some(v) => {
                let ghost prep = ps@;
                ps.push(v);
                proof {
                    lemma_row64_int_push(prep, v);
                    assert(row_int(nums@)[c2 as int] == nums@[c2 as int] as int);
                    assert(row64_int(ps@) =~= row64_int(prep).push(v as int));
                }
            },
        }
        c2 = c2 + 1;
    }
    let intercept = ps[0];
    let mut coef: Vec<i64> = Vec::new();
    coef.push(ps[1]);
    coef.push(ps[2]);
    coef.push(ps[3]);
    coef.push(ps[4]);
    let model = CostModel { mr: kernel.mr, nr: kernel.nr, intercept, coef };
    proof {
        assert(model_params(model) =~= row64_int(ps@));
        assert(train_params(ds.0@, name, mri, nri) == Result::<Seq<int>, TrainError>::Ok(
            model_params(model),
        ));
    }
    Result::Ok(model)
}

/// A signed number in decimal.
pub open spec fn int_text(v: int) -> Seq<u8> {
    if v < 0 {
        seq![45u8] + crate::dataset::dec_digits(-v)
    } else {
        crate::dataset::dec_digits(v)
    }
}

/// A comma-separated coefficient list.
pub open spec fn coef_text(s: Seq<int>) -> Seq<u8>
    decreases s.len(),
{
    if s.len() == 0 {
        Seq::empty()
    } else {
        coef_text(s.drop_last()) + (if s.len() == 1 {
            Seq::<u8>::empty()
        } else {
            ", ".spec_bytes()
        }) + int_text(s.last())
    }
}

/// One table entry of the generated source: the kernel name and its model.
pub open spec fn model_entry_text(name: Seq<u8>, m: CostModel) -> Seq<u8> {
    "(\"".spec_bytes() + name + "\", CostModel { mr: ".spec_bytes() + crate::dataset::dec_digits(
        m.mr as int,
    ) + ", nr: ".spec_bytes() + crate::dataset::dec_digits(m.nr as int) + ",\nintercept: "
        .spec_bytes() + int_text(m.intercept as int) + ",\ncoef: vec!(".spec_bytes() + coef_text(
        m.coef@.map_values(|c: i64| c as int),
    ) + "),\n}),\n".spec_bytes()
}

pub open spec fn models_body(entries: Seq<(Vec<u8>, CostModel)>) -> Seq<u8>
    decreases entries.len(),
{
    if entries.len() == 0 {
        Seq::empty()
    } else {
        models_body(entries.drop_last()) + model_entry_text(
            entries.last().0@,
            entries.last().1,
        )
    }
}

/// The generated cost-model table as Rust source text: the sole channel by
/// which offline-trained models reach the runtime dispatcher.
pub open spec fn models_text(entries: Seq<(Vec<u8>, CostModel)>) -> Seq<u8> {
    "use crate::mmm::cost_model::CostModel;\npub fn models() -> Vec<(&'static str, CostModel)> {\nvec!(\n".spec_bytes()
        + models_body(entries) + ")}\n".spec_bytes()
}

fn int_exec(v: i64) -> (r: Vec<u8>)
    ensures
        r@ == int_text(v as int),
{
    let a: u64 = v.unsigned_abs();
    let d = crate::dataset::dec_exec(a);
    if v < 0 {
        let mut r: Vec<u8> = Vec::new();
        r.push(45u8);
        proof {
            assert(r@ =~= seq![45u8]);
        }
        crate::dataset::append_bytes(&mut r, &d);
        r
    } else {
        d
    }
}

/// One rendered table entry.
fn entry_exec(name: &Vec<u8>, m: &CostModel) -> (out: Vec<u8>)
    ensures
        out@ == model_entry_text(name@, *m),
{
    let mut out: Vec<u8> = Vec::new();
    let p1 = "(\"".as_bytes_vec();
    crate::dataset::append_bytes(&mut out, &p1);
    crate::dataset::append_bytes(&mut out, name);
    let p2 = "\", CostModel { mr: ".as_bytes_vec();
    crate::dataset::append_bytes(&mut out, &p2);
    let mrd = crate::dataset::dec_exec(m.mr as u64);
    crate::dataset::append_bytes(&mut out, &mrd);
    let p3 = ", nr: ".as_bytes_vec();
    crate::dataset::append_bytes(&mut out, &p3);
    let nrd = crate::dataset::dec_exec(m.nr as u64);
    crate::dataset::append_bytes(&mut out, &nrd);
    let p4 = ",\nintercept: ".as_bytes_vec();
    crate::dataset::append_bytes(&mut out, &p4);
    let itd = int_exec(m.intercept);
    crate::dataset::append_bytes(&mut out, &itd);
    let p5 = ",\ncoef: vec!(".as_bytes_vec();
    crate::dataset::append_bytes(&mut out, &p5);
    let ghost coefints = m.coef@.map_values(|c: i64| c as int);
    let ghost pre_coef = out@;
    let mut j: usize = 0;
    while j < m.coef.len()
        invariant
            j <= m.coef@.len(),
            coefints == m.coef@.map_values(|c: i64| c as int),
            out@ == pre_coef + coef_text(coefints.subrange(0, j as int)),
        decreases m.coef@.len() - j,
    {
        if j > 0 {
            let sep = ", ".as_bytes_vec();
            crate::dataset::append_bytes(&mut out, &sep);
        }
        let cd = int_exec(m.coef[j]);
        crate::dataset::append_bytes(&mut out, &cd);
        proof {
            let cur = coefints.subrange(0, j + 1);
            assert(cur.drop_last() =~= coefints.subrange(0, j as int));
            assert(cur.last() == m.coef@[j as int] as int);
            if j == 0 {
                assert(out@ =~= pre_coef + coef_text(cur));
            } else {
                assert(out@ =~= pre_coef + coef_text(cur));
            }
        }
        j = j + 1;
    }
    proof {
        assert(coefints.subrange(0, coefints.len() as int) =~= coefints);
    }
    let p6 = "),\n}),\n".as_bytes_vec();
    crate::dataset::append_bytes(&mut out, &p6);
    proof {
        assert(out@ =~= model_entry_text(name@, *m));
    }
    out
}

/// Emit the trained models as the source text of a static table, one
/// `(kernel_name, CostModel)` pair per kernel.
pub fn render_models(entries: &Vec<(Vec<u8>, CostModel)>) -> (out: Vec<u8>)
    ensures
        out@ == models_text(entries@),
{
    let mut out: Vec<u8> = Vec::new();
    let hdr =
        "use crate::mmm::cost_model::CostModel;\npub fn models() -> Vec<(&'static str, CostModel)> {\nvec!(\n".as_bytes_vec();
    crate::dataset::append_bytes(&mut out, &hdr);
    let ghost header = hdr@;
    proof {
        assert(out@ =~= header + models_body(entries@.subrange(0, 0)));
    }
    let mut i: usize = 0;
    while i < entries.len()
        invariant
            i <= entries@.len(),
            header
                == "use crate::mmm::cost_model::CostModel;\npub fn models() -> Vec<(&'static str, CostModel)> {\nvec!(\n".spec_bytes(),
            out@ == header + models_body(entries@.subrange(0, i as int)),
        decreases entries@.len() - i,
    {
        let piece = entry_exec(&entries[i].0, &entries[i].1);
        crate::dataset::append_bytes(&mut out, &piece);
        proof {
            let pre = entries@.subrange(0, i as int);
            let cur = entries@.subrange(0, i + 1);
            assert(cur.drop_last() =~= pre);
            assert(cur.last() == entries@[i as int]);
            assert(out@ =~= header + models_body(cur));
        }
        i = i + 1;
    }
    let ftr = ")}\n".as_bytes_vec();
    crate::dataset::append_bytes(&mut out, &ftr);
    proof {
        assert(entries@.subrange(0, entries@.len() as int) =~= entries@);
        assert(out@ =~= models_text(entries@));
    }
    out
}

} // verus!
