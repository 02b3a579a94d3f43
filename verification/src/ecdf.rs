use vstd::prelude::*;

use crate::error::PlotError;
use crate::fraction::Fraction;
use crate::order::{
    ascending, is_sorted, lemma_ascending_is_sorted_rearrangement, lemma_ascending_strict,
    sorted_copy,
};

verus! {

/// The cumulative fractions of a sample of `n` values: `1/n, 2/n, .., n/n`.
pub open spec fn rank_fractions(n: nat) -> Seq<Fraction> {
    Seq::new(n, |i: int| Fraction { num: (i + 1) as usize, den: n as usize })
}

/// `x` and `y` form an empirical distribution function: `x` is a non-empty
/// ascending sequence and `y[i]` is `(i + 1) / n`.
pub open spec fn is_ecdf(x: Seq<i64>, y: Seq<Fraction>) -> bool {
    &&& 0 < x.len() <= usize::MAX
    &&& is_sorted(x)
    &&& y == rank_fractions(x.len())
}

/// The index of the first element of `x` that is at least `q`, or the length
/// of `x` when every element is smaller.
pub open spec fn first_at_least(x: Seq<i64>, q: i64) -> int
    decreases x.len(),
{
    if x.len() == 0 {
        0
    } else if x[0] >= q {
        0
    } else {
        1 + first_at_least(x.drop_first(), q)
    }
}

/// The index whose fraction the step function takes at `q`: that of the
/// first sample value at least `q`, or the last index when there is none.
pub open spec fn step_index(x: Seq<i64>, q: i64) -> int {
    if first_at_least(x, q) < x.len() {
        first_at_least(x, q)
    } else {
        x.len() - 1
    }
}

/// The value of the step function of `(x, y)` at `q`.
pub open spec fn step_value(x: Seq<i64>, y: Seq<Fraction>, q: i64) -> Fraction {
    y[step_index(x, q)]
}

/// The step function of `(x, y)` evaluated at each query point.
pub open spec fn interpolated(x: Seq<i64>, y: Seq<Fraction>, queries: Seq<i64>) -> Seq<Fraction> {
    Seq::new(queries.len(), |k: int| step_value(x, y, queries[k]))
}

/// No two neighbours of `x` are equal or out of order.
pub open spec fn strictly_ascending(x: Seq<i64>) -> bool {
    forall|i: int, j: int| 0 <= i < j < x.len() ==> x[i] < x[j]
}

/// The mathematical content of an [`Ecdf`].
pub ghost struct EcdfView {
    pub x: Seq<i64>,
    pub y: Seq<Fraction>,
}

/// The empirical distribution function of a sample.
pub open spec fn ecdf_of(sample: Seq<i64>) -> EcdfView {
    EcdfView { x: ascending(sample), y: rank_fractions(sample.len()) }
}

/// What `ecdf` returns for a sample.
pub open spec fn ecdf_model(sample: Seq<i64>) -> Result<EcdfView, PlotError> {
    if sample.len() == 0 {
        Err(PlotError::EmptySample)
    } else {
        Ok(ecdf_of(sample))
    }
}

/// `first_at_least` is within bounds, everything before it is smaller than
/// `q`, and the element at it, if any, is at least `q`.
pub proof fn lemma_first_at_least(x: Seq<i64>, q: i64)
    ensures
        0 <= first_at_least(x, q) <= x.len(),
        forall|j: int| 0 <= j < first_at_least(x, q) ==> x[j] < q,
        first_at_least(x, q) < x.len() ==> x[first_at_least(x, q)] >= q,
    decreases x.len(),
{
    if x.len() != 0 && x[0] < q {
        let rest = x.drop_first();
        lemma_first_at_least(rest, q);
        assert forall|j: int| 0 <= j < first_at_least(x, q) implies x[j] < q by {
            if j > 0 {
                assert(rest[j - 1] == x[j]);
            }
        }
        if first_at_least(x, q) < x.len() {
            assert(rest[first_at_least(rest, q)] == x[first_at_least(x, q)]);
        }
    }
}

/// An index with the defining property of `first_at_least` is
/// `first_at_least`.
pub proof fn lemma_first_at_least_unique(x: Seq<i64>, q: i64, i: int)
    requires
        0 <= i <= x.len(),
        forall|j: int| 0 <= j < i ==> x[j] < q,
        i < x.len() ==> x[i] >= q,
    ensures
        i == first_at_least(x, q),
{
    lemma_first_at_least(x, q);
    let f = first_at_least(x, q);
    if i < f {
        assert(x[i] < q);
    } else if f < i {
        assert(x[f] < q);
    }
}

/// The cumulative fractions never decrease, end in exactly one, and there
/// are as many of them as sample values.
pub proof fn lemma_ecdf_shape(sample: Seq<i64>)
    requires
        0 < sample.len() <= usize::MAX,
    ensures
        is_ecdf(ecdf_of(sample).x, ecdf_of(sample).y),
        ecdf_of(sample).x.len() == sample.len(),
        ecdf_of(sample).y.len() == sample.len(),
        forall|i: int, j: int|
            0 <= i <= j < sample.len() ==> (#[trigger] ecdf_of(sample).y[i]).le(
                #[trigger] ecdf_of(sample).y[j],
            ),
        forall|i: int| 0 <= i < sample.len() ==> (#[trigger] ecdf_of(sample).y[i]).in_unit_interval(),
        ecdf_of(sample).y.last().is_one(),
{
    lemma_ascending_is_sorted_rearrangement(sample);
    let y = ecdf_of(sample).y;
    let n = sample.len();
    assert forall|i: int, j: int| 0 <= i <= j < n implies (#[trigger] y[i]).le(#[trigger] y[j]) by {
        assert(y[i].num == i + 1 && y[j].num == j + 1 && y[i].den == n && y[j].den == n);
        assert((i + 1) * n <= (j + 1) * n) by (nonlinear_arith)
            requires
                i <= j,
                n > 0,
        ;
    }
}

/// Evaluated at its own sorted values, a distribution function with
/// strictly ascending values gives back its cumulative fractions.
pub proof fn lemma_interpolate_own_points(x: Seq<i64>, y: Seq<Fraction>)
    requires
        is_ecdf(x, y),
        strictly_ascending(x),
    ensures
        interpolated(x, y, x) == y,
{
    assert forall|k: int| 0 <= k < x.len() implies step_value(x, y, x[k]) == y[k] by {
        lemma_first_at_least_unique(x, x[k], k);
    }
    assert(interpolated(x, y, x) =~= y);
}

/// The distribution function of a sample in which no value occurs twice,
/// evaluated at the sample's own sorted values, gives back the sample's
/// own cumulative fractions.
///
/// With a repeated value this fails at the later occurrences, which take
/// the fraction of the first one.
pub proof fn lemma_interpolate_own_sample(sample: Seq<i64>)
    requires
        0 < sample.len() <= usize::MAX,
        sample.no_duplicates(),
    ensures
        interpolated(ecdf_of(sample).x, ecdf_of(sample).y, ecdf_of(sample).x) == ecdf_of(sample).y,
{
    lemma_ecdf_shape(sample);
    lemma_ascending_strict(sample);
    lemma_interpolate_own_points(ecdf_of(sample).x, ecdf_of(sample).y);
}

/// At a sample value that occurs more than once the step function takes the
/// fraction of its first occurrence.
pub proof fn lemma_interpolate_own_point(x: Seq<i64>, y: Seq<Fraction>, k: int)
    requires
        is_ecdf(x, y),
        0 <= k < x.len(),
    ensures
        0 <= step_index(x, x[k]) <= k,
        x[step_index(x, x[k])] == x[k],
        step_index(x, x[k]) > 0 ==> x[step_index(x, x[k]) - 1] < x[k],
{
    lemma_first_at_least(x, x[k]);
    let f = first_at_least(x, x[k]);
    if k < f {
        assert(x[k] < x[k]);
    }
    assert(x[f] <= x[k]);
}

/// At or below the smallest sample value the step function takes the first
/// cumulative fraction.
pub proof fn lemma_step_below_minimum(x: Seq<i64>, y: Seq<Fraction>, q: i64)
    requires
        is_ecdf(x, y),
        q <= x[0],
    ensures
        step_value(x, y, q) == y[0],
        step_value(x, y, q) == (Fraction { num: 1, den: x.len() as usize }),
{
}

/// Above the largest sample value the step function is exactly one.
pub proof fn lemma_step_above_maximum(x: Seq<i64>, y: Seq<Fraction>, q: i64)
    requires
        is_ecdf(x, y),
        q > x.last(),
    ensures
        step_value(x, y, q) == y.last(),
        step_value(x, y, q).is_one(),
{
    assert forall|j: int| 0 <= j < x.len() implies x[j] < q by {
        assert(x[j] <= x[x.len() - 1]);
    }
    lemma_first_at_least_unique(x, q, x.len() as int);
}

/// Every value of the step function is one of the cumulative fractions, so
/// it lies in the unit interval.
pub proof fn lemma_step_value_range(x: Seq<i64>, y: Seq<Fraction>, q: i64)
    requires
        is_ecdf(x, y),
    ensures
        0 <= step_index(x, q) < x.len(),
        step_value(x, y, q) == (Fraction {
            num: (step_index(x, q) + 1) as usize,
            den: x.len() as usize,
        }),
        step_value(x, y, q).in_unit_interval(),
{
    lemma_first_at_least(x, q);
}

/// The step function never decreases: a larger query point has at least the
/// fraction of a smaller one.
pub proof fn lemma_step_monotone(x: Seq<i64>, y: Seq<Fraction>, p: i64, q: i64)
    requires
        is_ecdf(x, y),
        p <= q,
    ensures
        step_index(x, p) <= step_index(x, q),
        step_value(x, y, p).le(step_value(x, y, q)),
{
    lemma_first_at_least(x, p);
    lemma_first_at_least(x, q);
    let fp = first_at_least(x, p);
    let fq = first_at_least(x, q);
    if fq < fp {
        assert(x[fq] < p);
    }
    let i = step_index(x, p);
    let j = step_index(x, q);
    let n = x.len();
    assert((i + 1) * n <= (j + 1) * n) by (nonlinear_arith)
        requires
            i <= j,
            n > 0,
    ;
}

/// The empirical cumulative distribution function of a non-empty sample:
/// the sorted values, and beside the `i`-th smallest the fraction `i / n`.
///
/// Equal values keep their own ranks; nothing is merged or averaged.
#[derive(Debug)]
pub struct Ecdf {
    x: Vec<i64>,
    y: Vec<Fraction>,
}

impl View for Ecdf {
    type V = EcdfView;

    closed spec fn view(&self) -> EcdfView {
        EcdfView { x: self.x@, y: self.y@ }
    }
}

impl Ecdf {
    #[verifier::type_invariant]
    spec fn well_formed(&self) -> bool {
        is_ecdf(self.x@, self.y@)
    }

    /// The sample values in ascending order.
    pub fn x(&self) -> (r: &Vec<i64>)
        ensures
            r@ == self@.x,
            is_ecdf(self@.x, self@.y),
    {
        proof {
            use_type_invariant(self);
        }
        &self.x
    }

    /// The cumulative fraction beside each value of `x`.
    pub fn y(&self) -> (r: &Vec<Fraction>)
        ensures
            r@ == self@.y,
            is_ecdf(self@.x, self@.y),
    {
        proof {
            use_type_invariant(self);
        }
        &self.y
    }

    /// The number of sample values, which is at least one.
    pub fn len(&self) -> (n: usize)
        ensures
            n == self@.x.len(),
            n == self@.y.len(),
            n > 0,
    {
        proof {
            use_type_invariant(self);
        }
        self.x.len()
    }

    /// The smallest sample value.
    pub fn min(&self) -> (v: i64)
        ensures
            is_ecdf(self@.x, self@.y),
            v == self@.x[0],
            forall|i: int| 0 <= i < self@.x.len() ==> v <= self@.x[i],
    {
        proof {
            use_type_invariant(self);
        }
        self.x[0]
    }

    /// The largest sample value.
    pub fn max(&self) -> (v: i64)
        ensures
            is_ecdf(self@.x, self@.y),
            v == self@.x.last(),
            forall|i: int| 0 <= i < self@.x.len() ==> self@.x[i] <= v,
    {
        proof {
            use_type_invariant(self);
        }
        self.x[self.x.len() - 1]
    }

    /// The index of the first sample value at least `q`, or the last index
    /// when every sample value is smaller.
    pub fn locate(&self, q: i64) -> (idx: usize)
        ensures
            is_ecdf(self@.x, self@.y),
            idx == step_index(self@.x, q),
            idx < self@.x.len(),
    {
        proof {
            use_type_invariant(self);
        }
        let n: usize = self.x.len();
        let mut lo: usize = 0;
        let mut hi: usize = n;
        while lo < hi
            invariant
                n == self.x@.len(),
                is_sorted(self.x@),
                lo <= hi <= n,
                forall|j: int| 0 <= j < lo ==> self.x@[j] < q,
                forall|j: int| hi <= j < n ==> self.x@[j] >= q,
            decreases hi - lo,
        {
            let mid: usize = lo + (hi - lo) / 2;
            if self.x[mid] >= q {
                proof {
                    assert forall|j: int| mid <= j < n implies self.x@[j] >= q by {
                        assert(self.x@[mid as int] <= self.x@[j]);
                    }
                }
                hi = mid;
            } else {
                proof {
                    assert forall|j: int| 0 <= j < mid + 1 implies self.x@[j] < q by {
                        assert(self.x@[j] <= self.x@[mid as int]);
                    }
                }
                lo = mid + 1;
            }
        }
        proof {
            lemma_first_at_least_unique(self.x@, q, lo as int);
        }
        if lo < n {
            lo
        } else {
            n - 1
        }
    }

    /// The value of the step function at `q`: the cumulative fraction of
    /// the smallest sample value at least `q`, or one when there is none.
    pub fn value_at(&self, q: i64) -> (v: Fraction)
        ensures
            is_ecdf(self@.x, self@.y),
            v == step_value(self@.x, self@.y, q),
    {
        proof {
            use_type_invariant(self);
        }
        let idx = self.locate(q);
        self.y[idx]
    }
}

/// Computes the empirical cumulative distribution function of a sample.
///
/// The sample is read only; sorting happens on a private copy. An empty
/// sample is rejected.
pub fn ecdf(sample: &Vec<i64>) -> (r: Result<Ecdf, PlotError>)
    ensures
        match r {
            Ok(e) => ecdf_model(sample@) == Ok::<EcdfView, PlotError>(e@) && is_ecdf(e@.x, e@.y),
            Err(e) => ecdf_model(sample@) == Err::<EcdfView, PlotError>(e),
        },
{
    let n: usize = sample.len();
    if n == 0 {
        return Err(PlotError::EmptySample);
    }
    let x = sorted_copy(sample);
    let mut y: Vec<Fraction> = Vec::new();
    let mut i: usize = 0;
    while i < n
        invariant
            i <= n,
            y@.len() == i,
            forall|k: int| 0 <= k < i ==> y@[k] == (Fraction { num: (k + 1) as usize, den: n }),
        decreases n - i,
    {
        y.push(Fraction { num: i + 1, den: n });
        i = i + 1;
    }
    proof {
        assert(y@ =~= rank_fractions(n as nat));
    }
    Ok(Ecdf { x, y })
}

/// Evaluates the step function of `ecdf` at every point of `x_seq`, which
/// need not be sorted. The result has one fraction for each query point.
pub fn interpolate_ecdf(ecdf: &Ecdf, x_seq: &Vec<i64>) -> (r: Vec<Fraction>)
    ensures
        r@ == interpolated(ecdf@.x, ecdf@.y, x_seq@),
        r@.len() == x_seq@.len(),
{
    let m: usize = x_seq.len();
    let mut out: Vec<Fraction> = Vec::new();
    let mut k: usize = 0;
    while k < m
        invariant
            m == x_seq@.len(),
            k <= m,
            out@.len() == k,
            forall|j: int| 0 <= j < k ==> out@[j] == step_value(ecdf@.x, ecdf@.y, x_seq@[j]),
        decreases m - k,
    {
        let v = ecdf.value_at(x_seq[k]);
        out.push(v);
        k = k + 1;
    }
    proof {
        assert(out@ =~= interpolated(ecdf@.x, ecdf@.y, x_seq@));
    }
    out
}

} // verus!
