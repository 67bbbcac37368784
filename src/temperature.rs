use vstd::prelude::*;
use crate::bins::Bins;
use crate::state::State;

verus! {

/// Log-weights at or below this bound keep every product of the
/// temperature estimate inside `i128`.
pub const WEIGHT_BOUND: u64 = 4611686018427387904;

/// Energies within this bound of zero keep every product of the
/// temperature estimate inside `i128`.
pub const ENERGY_BOUND: i64 = 2305843009213693952;

/// An exact ratio `num / den`, `den` positive: an energy over a fixed-point
/// log-weight difference.
#[derive(Debug, Clone, Copy, PartialEq, Eq, Structural)]
pub struct Ratio {
    pub num: i128,
    pub den: i128,
}

/// `a < b` as numbers, for positive denominators.
pub open spec fn less(a: (int, int), b: (int, int)) -> bool {
    a.0 * b.1 < b.0 * a.1
}

/// The finite-difference temperature between the state `e`, at cell `i`,
/// and cell `j`: `(E - E_j) / (lnw_i - lnw_j)`, with a positive
/// denominator.  Cells of zero weight, or of the weight of `i`, give none.
pub open spec fn candidate(b: Bins, e: State, i: int, j: int) -> Option<(int, int)> {
    let lj = b.lnw@[j] as int;
    let li = b.lnw@[i] as int;
    if lj > 0 && lj != li {
        let de = e.energy - b.center(j / (b.max_n + 1));
        if li > lj {
            Some((de, li - lj))
        } else {
            Some((-de, lj - li))
        }
    } else {
        None
    }
}

/// The lower bound over cells `0..j`: the largest positive candidate, the
/// first of equal ones.
pub open spec fn lower_bound(b: Bins, e: State, i: int, j: int) -> Option<(int, int)>
    decreases j,
{
    if j <= 0 {
        None
    } else {
        let prev = lower_bound(b, e, i, j - 1);
        match candidate(b, e, i, j - 1) {
            Some(c) => if c.0 > 0 && (prev is None || less(prev->0, c)) {
                Some(c)
            } else {
                prev
            },
            None => prev,
        }
    }
}

/// The upper bound over cells `i+1..j`: the smallest candidate, the first
/// of equal ones.
pub open spec fn upper_bound(b: Bins, e: State, i: int, j: int) -> Option<(int, int)>
    decreases j - i,
{
    if j <= i + 1 {
        None
    } else {
        let prev = upper_bound(b, e, i, j - 1);
        match candidate(b, e, i, j - 1) {
            Some(c) => if prev is None || less(c, prev->0) {
                Some(c)
            } else {
                prev
            },
            None => prev,
        }
    }
}

/// The temperature estimate at `e`: the mean of the two bounds where both
/// exist and the upper one lies above the lower one, else the lower bound
/// where it exists, else the upper bound.  `None` where no cell gives a
/// candidate.
pub open spec fn estimate(b: Bins, e: State) -> Option<(int, int)> {
    let i = b.index_of(e);
    let lo = lower_bound(b, e, i, i);
    let hi = upper_bound(b, e, i, b.nbins_spec());
    if lo is Some && hi is Some && less(lo->0, hi->0) {
        let (a, p) = lo->0;
        let (c, q) = hi->0;
        Some((a * q + c * p, 2 * (p * q)))
    } else if lo is Some {
        lo
    } else {
        hi
    }
}

/// The table is small enough for the estimate's exact arithmetic.
pub open spec fn in_range(b: Bins) -> bool {
    &&& -ENERGY_BOUND <= b.min
    &&& b.emax_spec() <= ENERGY_BOUND
    &&& forall|j: int| 0 <= j < b.lnw.len() ==> #[trigger] b.lnw@[j] <= WEIGHT_BOUND
}

/// A candidate's parts are bounded.
pub open spec fn small(c: (int, int)) -> bool {
    &&& -WEIGHT_BOUND < c.0 < WEIGHT_BOUND
    &&& 0 < c.1 <= WEIGHT_BOUND
}

fn ratio_less(a: Ratio, b: Ratio) -> (r: bool)
    requires
        small((a.num as int, a.den as int)),
        small((b.num as int, b.den as int)),
    ensures
        r == less((a.num as int, a.den as int), (b.num as int, b.den as int)),
{
    proof {
        lemma_small_product(a.num as int, b.den as int);
        lemma_small_product(b.num as int, a.den as int);
    }
    a.num * b.den < b.num * a.den
}

proof fn lemma_small_product(x: int, y: int)
    requires
        -WEIGHT_BOUND < x < WEIGHT_BOUND,
        0 < y <= WEIGHT_BOUND,
    ensures
        -WEIGHT_BOUND * WEIGHT_BOUND <= x * y <= WEIGHT_BOUND * WEIGHT_BOUND,
{
    assert(-WEIGHT_BOUND * WEIGHT_BOUND <= x * y <= WEIGHT_BOUND * WEIGHT_BOUND) by (nonlinear_arith)
        requires -WEIGHT_BOUND < x < WEIGHT_BOUND, 0 < y <= WEIGHT_BOUND;
}

impl Bins {
    /// Whether the table is small enough for `temperature`.
    pub fn temperature_in_range(&self) -> (r: bool)
        requires
            self.wf(),
        ensures
            r == in_range(*self),
    {
        if self.min < -ENERGY_BOUND || self.emax() > ENERGY_BOUND {
            return false;
        }
        let mut j: usize = 0;
        while j < self.lnw.len()
            invariant
                j <= self.lnw.len(),
                forall|x: int| 0 <= x < j ==> #[trigger] self.lnw@[x] <= WEIGHT_BOUND,
            decreases self.lnw.len() - j,
        {
            if self.lnw[j] > WEIGHT_BOUND {
                return false;
            }
            j = j + 1;
        }
        true
    }

    /// The candidate of cell `j` for the state `e` at cell `i`.
    fn candidate_at(&self, e: State, i: usize, j: usize) -> (r: Option<Ratio>)
        requires
            self.wf(),
            in_range(*self),
            self.covers(e),
            i < self.nbins_spec(),
            j < self.nbins_spec(),
        ensures
            r is None <==> candidate(*self, e, i as int, j as int) is None,
            r is Some ==> candidate(*self, e, i as int, j as int) == Some((r->0.num as int, r->0.den as int)),
            r is Some ==> small((r->0.num as int, r->0.den as int)),
    {
        let lj: u64 = self.lnw[j];
        let li: u64 = self.lnw[i];
        if lj > 0 && lj != li {
            let c = self.index_to_state(j);
            proof {
                assert(lj <= WEIGHT_BOUND && li <= WEIGHT_BOUND);
            }
            let de: i128 = e.energy as i128 - c.energy as i128;
            if li > lj {
                Some(Ratio { num: de, den: (li - lj) as i128 })
            } else {
                Some(Ratio { num: -de, den: (lj - li) as i128 })
            }
        } else {
            None
        }
    }

    /// Estimates the temperature at state `e` from the log-weights around
    /// its cell; see `estimate`.
    pub fn temperature(&self, e: State) -> (r: Option<Ratio>)
        requires
            self.wf(),
            in_range(*self),
            self.covers(e),
        ensures
            r is None <==> estimate(*self, e) is None,
            r is Some ==> estimate(*self, e) == Some((r->0.num as int, r->0.den as int)),
    {
        proof {
            self.lemma_covered_index(e);
        }
        let i = self.state_to_index(e);
        let n = self.lnw.len();
        let mut lo: Option<Ratio> = None;
        let mut j: usize = 0;
        while j < i
            invariant
                self.wf(),
                in_range(*self),
                self.covers(e),
                i == self.index_of(e),
                i < n,
                n == self.nbins_spec(),
                j <= i,
                lo is None <==> lower_bound(*self, e, i as int, j as int) is None,
                lo is Some ==> lower_bound(*self, e, i as int, j as int) == Some((lo->0.num as int, lo->0.den as int)),
                lo is Some ==> small((lo->0.num as int, lo->0.den as int)),
            decreases i - j,
        {
            let c = self.candidate_at(e, i, j);
            match c {
                Some(t) => {
                    if t.num > 0 {
                        match lo {
                            None => { lo = Some(t); },
                            Some(l) => {
                                if ratio_less(l, t) {
                                    lo = Some(t);
                                }
                            },
                        }
                    }
                },
                None => {},
            }
            j = j + 1;
        }
        let mut hi: Option<Ratio> = None;
        let mut j: usize = i + 1;
        while j < n
            invariant
                self.wf(),
                in_range(*self),
                self.covers(e),
                i == self.index_of(e),
                i < n,
                n == self.nbins_spec(),
                i + 1 <= j <= n,
                hi is None <==> upper_bound(*self, e, i as int, j as int) is None,
                hi is Some ==> upper_bound(*self, e, i as int, j as int) == Some((hi->0.num as int, hi->0.den as int)),
                hi is Some ==> small((hi->0.num as int, hi->0.den as int)),
            decreases n - j,
        {
            let c = self.candidate_at(e, i, j);
            match c {
                Some(t) => {
                    match hi {
                        None => { hi = Some(t); },
                        Some(h) => {
                            if ratio_less(t, h) {
                                hi = Some(t);
                            }
                        },
                    }
                },
                None => {},
            }
            j = j + 1;
        }
        match (lo, hi) {
            (Some(l), Some(h)) => {
                if ratio_less(l, h) {
                    proof {
                        lemma_small_product(l.num as int, h.den as int);
                        lemma_small_product(h.num as int, l.den as int);
                        assert(0 < l.den * h.den <= WEIGHT_BOUND * WEIGHT_BOUND) by (nonlinear_arith)
                            requires 0 < l.den <= WEIGHT_BOUND, 0 < h.den <= WEIGHT_BOUND;
                    }
                    Some(Ratio { num: l.num * h.den + h.num * l.den, den: 2 * (l.den * h.den) })
                } else {
                    Some(l)
                }
            },
            (Some(l), None) => Some(l),
            (None, h) => h,
        }
    }
}

} // verus!
