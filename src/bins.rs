use vstd::prelude::*;
use vstd::arithmetic::div_mod::{lemma_fundamental_div_mod, lemma_fundamental_div_mod_converse};
use crate::state::State;

verus! {

/// The flat position of the cell in energy bin `q` and particle count `r`
/// of a grid whose largest particle count is `max_n`.
pub open spec fn cell_index(max_n: int, q: int, r: int) -> int {
    q * (max_n + 1) + r
}

/// The adaptive two-dimensional table over energy bins and particle counts.
///
/// Energy bin `q` covers `[min + q*width, min + (q+1)*width)`; the cell of
/// bin `q` and count `n` sits at `q * (max_n + 1) + n` in the flat arrays.
/// Log-weights are fixed-point numbers, `WEIGHT_ONE` standing for one.
#[derive(Debug, Clone)]
pub struct Bins {
    /// The lowest energy of any bin.
    pub min: i64,
    /// The energy width of a bin.
    pub width: i64,
    /// The number of times each cell has been visited.
    pub histogram: Vec<u64>,
    /// The log-weight of each cell.
    pub lnw: Vec<u64>,
    /// The translation scale for each particle count.
    pub translation_scale: Vec<u64>,
    /// The translation moves tried at each particle count.
    pub num_translation_attempts: Vec<u64>,
    /// The translation moves accepted at each particle count.
    pub num_translation_accepted: Vec<u64>,
    /// The add/remove moves tried.
    pub num_addremove_attempts: u64,
    /// The add/remove moves accepted.
    pub num_addremove_accepted: u64,
    /// Whether each cell was visited since the last visit to the
    /// maximum-entropy cell.
    pub have_visited_since_maxentropy: Vec<bool>,
    /// The number of round trips seen at each cell.
    pub round_trips: Vec<u64>,
    /// The largest log-weight seen.
    pub max_s: u64,
    /// The cell with the largest log-weight.
    pub max_s_index: usize,
    /// The largest particle count of the grid.
    pub max_n: usize,
    /// The number of energy bins.
    pub num_e: usize,
    /// The number of cells that have been occupied.
    pub num_states: usize,
    /// The move at which a new cell was last discovered.
    pub t_last: u64,
}

/// What a regridded array holds at bin `q` and count `r`: the old entry
/// when the cell existed before, shifted up by `k` bins, and `blank` else.
pub open spec fn moved<T>(v: Seq<T>, old_m: int, old_num_e: int, k: int, q: int, r: int, blank: T) -> T {
    if k <= q < k + old_num_e && r <= old_m {
        v[cell_index(old_m, q - k, r)]
    } else {
        blank
    }
}

/// What a per-count array holds at count `n` after growing.
pub open spec fn widened<T>(v: Seq<T>, old_m: int, n: int, blank: T) -> T {
    if n <= old_m {
        v[n]
    } else {
        blank
    }
}

/// Cells come in order of bin, then count.
pub proof fn lemma_cell_order(m: int, q1: int, r1: int, q2: int, r2: int)
    requires
        m >= 0,
        0 <= r1 <= m,
        0 <= r2 <= m,
        0 <= q1,
        q1 < q2 || (q1 == q2 && r1 < r2),
    ensures
        cell_index(m, q1, r1) < cell_index(m, q2, r2),
{
    if q1 < q2 {
        assert(q1 * (m + 1) + (m + 1) <= q2 * (m + 1)) by (nonlinear_arith)
            requires q1 < q2, m >= 0;
    }
}

/// A cell of a grid of `n` bins lies inside its arrays.
pub proof fn lemma_cell_bound(m: int, n: int, q: int, r: int)
    requires
        m >= 0,
        0 <= r <= m,
        0 <= q < n,
    ensures
        0 <= cell_index(m, q, r) < n * (m + 1),
{
    assert(q * (m + 1) >= 0) by (nonlinear_arith) requires q >= 0, m >= 0;
    lemma_cell_order(m, q, r, n, 0);
}

/// Copies `v`, a grid of `old_num_e` bins and counts up to `old_m`, into a
/// grid of `new_num_e` bins and counts up to `new_m`, whose bin `q + k` is
/// the old bin `q`.  New cells hold `blank`.
fn regrid<T: Copy>(
    v: &Vec<T>,
    old_m: usize,
    old_num_e: usize,
    k: usize,
    new_m: usize,
    new_num_e: usize,
    blank: T,
) -> (out: Vec<T>)
    requires
        v.len() == old_num_e * (old_m + 1),
        old_m <= new_m,
        k + old_num_e <= new_num_e,
        new_num_e * (new_m + 1) <= usize::MAX,
    ensures
        out.len() == new_num_e * (new_m + 1),
        forall|q: int, r: int|
            0 <= q < new_num_e && 0 <= r <= new_m ==> #[trigger] out@[cell_index(new_m as int, q, r)]
                == moved(v@, old_m as int, old_num_e as int, k as int, q, r, blank),
{
    let mut out: Vec<T> = Vec::new();
    let mut q: usize = 0;
    while q < new_num_e
        invariant
            q <= new_num_e,
            v.len() == old_num_e * (old_m + 1),
            old_m <= new_m,
            k + old_num_e <= new_num_e,
            new_num_e * (new_m + 1) <= usize::MAX,
            out.len() == q * (new_m + 1),
            forall|q2: int, r2: int|
                0 <= q2 < q && 0 <= r2 <= new_m ==> #[trigger] out@[cell_index(new_m as int, q2, r2)]
                    == moved(v@, old_m as int, old_num_e as int, k as int, q2, r2, blank),
        decreases new_num_e - q,
    {
        let mut r: usize = 0;
        while r <= new_m
            invariant
                q < new_num_e,
                r <= new_m + 1,
                v.len() == old_num_e * (old_m + 1),
                old_m <= new_m,
                k + old_num_e <= new_num_e,
                new_num_e * (new_m + 1) <= usize::MAX,
                out.len() == cell_index(new_m as int, q as int, r as int),
                forall|q2: int, r2: int|
                    0 <= q2 && 0 <= r2 <= new_m && (q2 < q || (q2 == q && r2 < r))
                        ==> #[trigger] out@[cell_index(new_m as int, q2, r2)]
                        == moved(v@, old_m as int, old_num_e as int, k as int, q2, r2, blank),
            decreases new_m + 1 - r,
        {
            proof {
                lemma_cell_bound(new_m as int, new_num_e as int, q as int, r as int);
            }
            let x: T = if k <= q && q < k + old_num_e && r <= old_m {
                proof {
                    lemma_cell_bound(old_m as int, old_num_e as int, (q - k) as int, r as int);
                    assert(new_m + 1 <= new_num_e * (new_m + 1)) by (nonlinear_arith)
                        requires new_num_e >= 1;
                }
                v[(q - k) * (old_m + 1) + r]
            } else {
                blank
            };
            let ghost before = out@;
            out.push(x);
            proof {
                assert forall|q2: int, r2: int|
                    0 <= q2 && 0 <= r2 <= new_m && (q2 < q || (q2 == q && r2 < r + 1))
                        implies #[trigger] out@[cell_index(new_m as int, q2, r2)]
                        == moved(v@, old_m as int, old_num_e as int, k as int, q2, r2, blank) by {
                    if q2 < q || r2 < r {
                        lemma_cell_order(new_m as int, q2, r2, q as int, r as int);
                        assert(out@[cell_index(new_m as int, q2, r2)] == before[cell_index(new_m as int, q2, r2)]);
                    }
                }
            }
            r = r + 1;
        }
        proof {
            assert(cell_index(new_m as int, q as int, new_m + 1) == (q + 1) * (new_m + 1)) by (nonlinear_arith);
        }
        q = q + 1;
    }
    out
}

/// Copies a per-count array into one for counts up to `new_m`; new counts
/// hold `blank`.
fn widen<T: Copy>(v: &Vec<T>, new_m: usize, blank: T) -> (out: Vec<T>)
    requires
        v.len() >= 1,
        v.len() - 1 <= new_m < usize::MAX,
    ensures
        out.len() == new_m + 1,
        forall|n: int| 0 <= n <= new_m ==> #[trigger] out@[n] == widened(v@, v.len() - 1, n, blank),
{
    let mut out: Vec<T> = Vec::new();
    let mut n: usize = 0;
    while n <= new_m
        invariant
            n <= new_m + 1,
            v.len() >= 1,
            v.len() - 1 <= new_m < usize::MAX,
            out.len() == n,
            forall|j: int| 0 <= j < n ==> #[trigger] out@[j] == widened(v@, v.len() - 1, j, blank),
        decreases new_m + 1 - n,
    {
        let x: T = if n < v.len() { v[n] } else { blank };
        out.push(x);
        n = n + 1;
    }
    out
}

/// `n` is `o` after a visit to cell `i`, come from cell `from`, in the
/// round-trip bookkeeping.  A new highest log-weight makes `i` the
/// maximum-entropy cell and marks every cell visited; else coming into the
/// maximum-entropy cell from another cell clears every mark; else a visit
/// to an unmarked cell marks it and counts one round trip.
pub open spec fn visit_recorded(o: Bins, n: Bins, from: int, i: int) -> bool {
    &&& o.lnw@[i] > o.max_s ==> {
        &&& n.max_s == o.lnw@[i]
        &&& n.max_s_index == i
        &&& n.have_visited_since_maxentropy@ == Seq::new(o.nbins_spec() as nat, |j: int| true)
        &&& n.round_trips == o.round_trips
    }
    &&& o.lnw@[i] <= o.max_s && i == o.max_s_index && from != i ==> {
        &&& n.max_s == o.max_s
        &&& n.max_s_index == o.max_s_index
        &&& n.have_visited_since_maxentropy@ == Seq::new(o.nbins_spec() as nat, |j: int| false)
        &&& n.round_trips == o.round_trips
    }
    &&& o.lnw@[i] <= o.max_s && !(i == o.max_s_index && from != i) ==> {
        &&& n.max_s == o.max_s
        &&& n.max_s_index == o.max_s_index
        &&& n.have_visited_since_maxentropy@ == o.have_visited_since_maxentropy@.update(i, true)
        &&& n.round_trips@ == if o.have_visited_since_maxentropy@[i] {
            o.round_trips@
        } else {
            o.round_trips@.update(i, o.round_trips@[i].saturating_add(1))
        }
    }
    &&& n == (Bins {
        max_s: n.max_s,
        max_s_index: n.max_s_index,
        have_visited_since_maxentropy: n.have_visited_since_maxentropy,
        round_trips: n.round_trips,
        ..o
    })
}

/// `b` is the one-cell grid that `Bins::new(energy, width, scale)` makes:
/// a bin of count zero centred on `energy`, visited once, of log-weight
/// zero, counted as one round trip and one occupied state.
pub open spec fn is_start(b: Bins, energy: i64, width: i64, scale: u64) -> bool {
    &&& b.min == energy - width / 2
    &&& b.width == width
    &&& b.max_n == 0
    &&& b.num_e == 1
    &&& b.histogram@ == seq![1u64]
    &&& b.lnw@ == seq![0u64]
    &&& b.translation_scale@ == seq![scale]
    &&& b.num_translation_attempts@ == seq![0u64]
    &&& b.num_translation_accepted@ == seq![0u64]
    &&& b.num_addremove_attempts == 0
    &&& b.num_addremove_accepted == 0
    &&& b.have_visited_since_maxentropy@ == seq![false]
    &&& b.round_trips@ == seq![1u64]
    &&& b.max_s == 0
    &&& b.max_s_index == 0
    &&& b.num_states == 1
    &&& b.t_last == 1
}

/// `b` is the table a sampler starts from in state `initial`: the one-cell
/// grid centred on its energy, grown to hold its particle count.
pub open spec fn start_table(b: Bins, initial: State, width: i64, scale: u64) -> bool {
    exists|b0: Bins|
        #[trigger] is_start(b0, initial.energy, width, scale) && if initial.count == 0 {
            b == b0
        } else {
            b0.grown_into(b, initial)
        }
}

impl Bins {
    /// A grid of one cell, count zero, whose bin is centred on `energy`.
    /// The cell counts as visited once, and as one round trip.
    pub fn new(energy: i64, width: i64, translation_scale: u64) -> (r: Bins)
        requires
            width > 0,
            i64::MIN <= energy - width / 2,
            energy - width / 2 + width <= i64::MAX,
        ensures
            r.wf(),
            is_start(r, energy, width, translation_scale),
            r.covers(State { energy, count: 0 }),
            r.bin_of(energy as int) == 0,
    {
        let r = Bins {
            min: energy - width / 2,
            width,
            histogram: vec![1u64],
            lnw: vec![0u64],
            translation_scale: vec![translation_scale],
            num_translation_attempts: vec![0u64],
            num_translation_accepted: vec![0u64],
            num_addremove_attempts: 0,
            num_addremove_accepted: 0,
            have_visited_since_maxentropy: vec![false],
            round_trips: vec![1u64],
            max_s: 0,
            max_s_index: 0,
            max_n: 0,
            num_e: 1,
            num_states: 1,
            t_last: 1,
        };
        proof {
            assert(r.histogram@ =~= seq![1u64]);
            assert(r.lnw@ =~= seq![0u64]);
            assert(r.translation_scale@ =~= seq![translation_scale]);
            assert(r.num_translation_attempts@ =~= seq![0u64]);
            assert(r.num_translation_accepted@ =~= seq![0u64]);
            assert(r.have_visited_since_maxentropy@ =~= seq![false]);
            assert(r.round_trips@ =~= seq![1u64]);
            lemma_fundamental_div_mod_converse(width / 2, width as int, 0, width / 2);
        }
        r
    }

    /// Whether the grid holds a cell for state `s`.
    pub fn holds(&self, s: State) -> (r: bool)
        requires
            self.wf(),
        ensures
            r == self.covers(s),
    {
        s.count <= self.max_n && self.min <= s.energy && s.energy < self.emax()
    }

    /// The shape of the grid grown to cover `s`: the bins added below, the
    /// lowest energy and the number of bins.
    fn grow_shape(&self, s: State) -> (r: (i128, i128, i128))
        requires
            self.wf(),
        ensures
            r.0 == self.steps_down(s.energy as int),
            r.1 == self.grown_min(s),
            r.2 == self.grown_num_e(s),
            0 <= r.0 <= self.min - r.1,
            r.1 <= s.energy,
            r.1 > i64::MIN - 2 * self.width,
            r.2 >= self.num_e + r.0,
            r.2 >= (s.energy - r.1) / self.width as int + 1,
            r.2 >= 1,
    {
        proof {
            self.lemma_steps_down(s.energy as int);
        }
        let w: i128 = self.width as i128;
        let e: i128 = s.energy as i128;
        let k: i128 = if e < self.min as i128 {
            (self.min as i128 - e + w - 1) / w
        } else {
            0
        };
        proof {
            assert(k == self.steps_down(s.energy as int));
            assert(k * w == self.min - self.grown_min(s));
            assert(s.energy < self.min ==> k * w < self.min - s.energy + w);
            assert(s.energy >= self.min ==> k == 0);
            assert(k <= self.min - self.grown_min(s)) by (nonlinear_arith)
                requires k * w == self.min - self.grown_min(s), w > 0, k >= 0;
            assert(k * w >= 0) by (nonlinear_arith) requires k >= 0, w > 0;
            if s.energy < self.min {
                assert(k * w < self.min - s.energy + w);
            } else {
                assert(k * w == 0) by (nonlinear_arith) requires k == 0;
            }
            assert(k * w <= 3 * 0x8000_0000_0000_0000);
        }
        let new_min: i128 = self.min as i128 - k * w;
        let need: i128 = (e - new_min) / w + 1;
        let base: i128 = self.num_e as i128 + k;
        let new_num_e: i128 = if need > base { need } else { base };
        (k, new_min, new_num_e)
    }

    /// Whether `s` is held by the grid or the grid can grow to hold it.
    pub fn can_hold(&self, s: State) -> (r: bool)
        requires
            self.wf(),
        ensures
            r == (self.covers(s) || self.grow_fits(s)),
    {
        if self.holds(s) {
            return true;
        }
        let (k, new_min, new_num_e) = self.grow_shape(s);
        if new_min < i64::MIN as i128 {
            return false;
        }
        let w: i128 = self.width as i128;
        let new_m: u128 = if s.count > self.max_n { s.count as u128 } else { self.max_n as u128 };
        if new_num_e > (i64::MAX as i128 - new_min) / w {
            proof {
                assert(new_num_e * w > i64::MAX - new_min) by (nonlinear_arith)
                    requires new_num_e > (i64::MAX - new_min) / (w as int), w > 0;
                assert(w * new_num_e == new_num_e * w) by (nonlinear_arith);
            }
            return false;
        }
        proof {
            assert(new_num_e * w <= i64::MAX - new_min) by (nonlinear_arith)
                requires new_num_e <= (i64::MAX - new_min) / (w as int), w > 0;
            assert(w * new_num_e == new_num_e * w) by (nonlinear_arith);
            assert(new_num_e <= u64::MAX) by (nonlinear_arith)
                requires new_num_e * w <= i64::MAX - new_min, w >= 1, new_min >= i64::MIN;
            assert(new_num_e * (new_m + 1) <= u64::MAX * (u64::MAX + 1)) by (nonlinear_arith)
                requires new_num_e <= u64::MAX, new_m <= u64::MAX, new_num_e >= 0;
        }
        (new_num_e as u128) * (new_m + 1) <= usize::MAX as u128
    }
    /// The number of cells of the grid.
    pub open spec fn nbins_spec(&self) -> int {
        self.num_e * (self.max_n + 1)
    }

    /// One past the highest energy of the grid.
    pub open spec fn emax_spec(&self) -> int {
        self.min + self.width * self.num_e
    }

    /// The energy bin that holds energy `e`.
    pub open spec fn bin_of(&self, e: int) -> int {
        (e - self.min) / self.width as int
    }

    /// The centre of energy bin `q`: `min + q*width + width/2`, the half
    /// width rounded down where the width is odd.  It lies inside the bin.
    pub open spec fn center(&self, q: int) -> int {
        self.min + q * self.width + self.width / 2
    }

    /// The flat index of a state.
    pub open spec fn index_of(&self, s: State) -> int {
        cell_index(self.max_n as int, self.bin_of(s.energy as int), s.count as int)
    }

    /// The state that stands for a flat index: its bin centre and count.
    pub open spec fn state_at(&self, i: int) -> State {
        State {
            energy: self.center(i / (self.max_n + 1)) as i64,
            count: (i % (self.max_n + 1)) as usize,
        }
    }

    /// Whether the grid holds a cell for state `s`.
    pub open spec fn covers(&self, s: State) -> bool {
        &&& s.count <= self.max_n
        &&& self.min <= s.energy
        &&& s.energy < self.emax_spec()
    }

    /// The shape of the grid and the lengths of its arrays agree.
    pub open spec fn wf(&self) -> bool {
        &&& self.width > 0
        &&& self.num_e >= 1
        &&& self.emax_spec() <= i64::MAX
        &&& self.histogram.len() == self.nbins_spec()
        &&& self.lnw.len() == self.nbins_spec()
        &&& self.have_visited_since_maxentropy.len() == self.nbins_spec()
        &&& self.round_trips.len() == self.nbins_spec()
        &&& self.translation_scale.len() == self.max_n + 1
        &&& self.num_translation_attempts.len() == self.max_n + 1
        &&& self.num_translation_accepted.len() == self.max_n + 1
        &&& self.max_s_index < self.nbins_spec()
    }

    /// Finds the index of a state.  The energy must not lie below `min`.
    pub fn state_to_index(&self, s: State) -> (r: usize)
        requires
            self.wf(),
            self.min <= s.energy,
            self.index_of(s) <= usize::MAX,
        ensures
            r == self.index_of(s),
    {
        let d: u64 = (s.energy as i128 - self.min as i128) as u64;
        let q: u64 = d / (self.width as u64);
        let m: usize = self.max_n;
        proof {
            let qi = q as int;
            let mi = m as int + 1;
            assert(qi == self.bin_of(s.energy as int));
            assert(qi <= qi * mi) by (nonlinear_arith)
                requires qi >= 0, mi >= 1;
            assert(qi * mi + s.count <= usize::MAX);
        }
        (q as usize) * (m + 1) + s.count
    }

    /// The state that stands for index `i`: the centre of its energy bin,
    /// and its particle count.
    pub fn index_to_state(&self, i: usize) -> (r: State)
        requires
            self.wf(),
            i < self.nbins_spec(),
        ensures
            r == self.state_at(i as int),
            r.energy == self.center(i as int / (self.max_n + 1)),
            self.covers(r),
    {
        let m: usize = self.max_n + 1;
        let q: usize = i / m;
        let n: usize = i % m;
        proof {
            lemma_fundamental_div_mod(i as int, m as int);
            assert(q < self.num_e) by (nonlinear_arith)
                requires i < self.num_e * m, i == m * q + n, n >= 0, m >= 1;
            self.lemma_center_in_bin(q as int);
        }
        let w: i128 = self.width as i128;
        let e: i128 = self.min as i128 + (q as i128) * w + w / 2;
        State { energy: e as i64, count: n }
    }

    /// The centre of bin `q` lies in bin `q`, inside the grid.
    pub proof fn lemma_center_in_bin(&self, q: int)
        requires
            self.wf(),
            0 <= q < self.num_e,
        ensures
            self.min + q * self.width <= self.center(q) < self.min + (q + 1) * self.width,
            self.center(q) < self.emax_spec(),
            self.bin_of(self.center(q)) == q,
            (q as i128) * (self.width as i128) <= i64::MAX - self.min,
    {
        let w = self.width as int;
        assert((q + 1) * w <= self.num_e * w) by (nonlinear_arith)
            requires q + 1 <= self.num_e, w > 0;
        assert((q + 1) * w == q * w + w) by (nonlinear_arith);
        assert(q * w >= 0) by (nonlinear_arith) requires q >= 0, w > 0;
        lemma_fundamental_div_mod_converse(q * w + w / 2, w, q, w / 2);
    }

    /// Every index of the grid maps back to itself through its state.
    pub proof fn lemma_index_round_trip(&self, i: int)
        requires
            self.wf(),
            0 <= i < self.nbins_spec(),
        ensures
            self.covers(self.state_at(i)),
            self.index_of(self.state_at(i)) == i,
    {
        let m = self.max_n + 1;
        let q = i / m;
        lemma_fundamental_div_mod(i, m);
        assert(q < self.num_e) by (nonlinear_arith)
            requires i < self.num_e * m, i == m * q + i % m, i % m >= 0, m >= 1;
        self.lemma_center_in_bin(q);
        let s = self.state_at(i);
        assert(s.energy == self.center(q));
        assert(s.count == i % m);
        assert(self.bin_of(s.energy as int) == q);
        assert(m * q == q * m) by (nonlinear_arith);
        assert(cell_index(self.max_n as int, q, i % m) == i);
    }

    /// A state the grid holds has an index inside the grid.
    pub proof fn lemma_covered_index(&self, s: State)
        requires
            self.wf(),
            self.covers(s),
        ensures
            0 <= self.bin_of(s.energy as int) < self.num_e,
            0 <= self.index_of(s) < self.nbins_spec(),
    {
        let w = self.width as int;
        let d = s.energy - self.min;
        let q = d / w;
        lemma_fundamental_div_mod(d, w);
        assert(w * q == q * w) by (nonlinear_arith);
        assert(q >= 0) by (nonlinear_arith) requires d >= 0, d == q * w + d % w, d % w < w, w > 0;
        assert(w * self.num_e == self.num_e * w) by (nonlinear_arith);
        assert(q < self.num_e) by (nonlinear_arith)
            requires d < self.num_e * w, d == q * w + d % w, d % w >= 0, w > 0;
        lemma_cell_bound(self.max_n as int, self.num_e as int, q, s.count as int);
    }

    /// Records a visit to cell `i`, come from cell `from`, in the
    /// round-trip bookkeeping; see `visit_recorded`.
    pub fn record_visit(&mut self, from: usize, i: usize)
        requires
            old(self).wf(),
            from < old(self).nbins_spec(),
            i < old(self).nbins_spec(),
        ensures
            final(self).wf(),
            visit_recorded(*old(self), *final(self), from as int, i as int),
    {
        if self.lnw[i] > self.max_s {
            self.max_s = self.lnw[i];
            self.max_s_index = i;
            self.mark_all(true);
        } else if i == self.max_s_index && from != i {
            self.mark_all(false);
        } else if !self.have_visited_since_maxentropy[i] {
            self.have_visited_since_maxentropy.set(i, true);
            let t: u64 = self.round_trips[i].saturating_add(1);
            self.round_trips.set(i, t);
        } else {
            proof {
                assert(self.have_visited_since_maxentropy@.update(i as int, true)
                    =~= self.have_visited_since_maxentropy@);
            }
        }
    }

    /// The first cell with at least `trips` round trips, if any.
    pub fn first_with_round_trips(&self, trips: u64) -> (r: Option<usize>)
        ensures
            r is None ==> forall|j: int| 0 <= j < self.round_trips.len() ==> self.round_trips@[j] < trips,
            r is Some ==> {
                &&& r->0 < self.round_trips.len()
                &&& self.round_trips@[r->0 as int] >= trips
                &&& forall|j: int| 0 <= j < r->0 ==> self.round_trips@[j] < trips
            },
    {
        let mut j: usize = 0;
        while j < self.round_trips.len()
            invariant
                j <= self.round_trips.len(),
                forall|x: int| 0 <= x < j ==> self.round_trips@[x] < trips,
            decreases self.round_trips.len() - j,
        {
            if self.round_trips[j] >= trips {
                return Some(j);
            }
            j = j + 1;
        }
        None
    }

    /// Sets every visit mark to `v`.
    fn mark_all(&mut self, v: bool)
        requires
            old(self).wf(),
        ensures
            final(self).have_visited_since_maxentropy@ == Seq::new(old(self).nbins_spec() as nat, |j: int| v),
            *final(self) == (Bins {
                have_visited_since_maxentropy: final(self).have_visited_since_maxentropy,
                ..*old(self)
            }),
            final(self).wf(),
    {
        let n: usize = self.have_visited_since_maxentropy.len();
        let mut j: usize = 0;
        while j < n
            invariant
                j <= n,
                n == self.have_visited_since_maxentropy.len(),
                self.wf(),
                *self == (Bins {
                    have_visited_since_maxentropy: self.have_visited_since_maxentropy,
                    ..*old(self)
                }),
                n == old(self).nbins_spec(),
                forall|x: int| 0 <= x < j ==> #[trigger] self.have_visited_since_maxentropy@[x] == v,
            decreases n - j,
        {
            self.have_visited_since_maxentropy.set(j, v);
            j = j + 1;
        }
        proof {
            assert(self.have_visited_since_maxentropy@ =~= Seq::new(old(self).nbins_spec() as nat, |j: int| v));
        }
    }

    /// The number of cells.
    pub fn nbins(&self) -> (r: usize)
        requires
            self.wf(),
        ensures
            r == self.nbins_spec(),
    {
        self.lnw.len()
    }

    /// The centre energy of each bin, lowest first.
    pub fn energies(&self) -> (r: Vec<i64>)
        requires
            self.wf(),
        ensures
            r.len() == self.num_e,
            forall|q: int| 0 <= q < self.num_e ==> #[trigger] r@[q] == self.center(q),
    {
        let mut r: Vec<i64> = Vec::new();
        let mut q: usize = 0;
        while q < self.num_e
            invariant
                self.wf(),
                q <= self.num_e,
                r.len() == q,
                forall|j: int| 0 <= j < q ==> #[trigger] r@[j] == self.center(j),
            decreases self.num_e - q,
        {
            proof {
                self.lemma_center_in_bin(q as int);
            }
            let w: i128 = self.width as i128;
            r.push((self.min as i128 + (q as i128) * w + w / 2) as i64);
            q = q + 1;
        }
        r
    }

    /// One past the highest energy of the grid.
    pub fn emax(&self) -> (r: i64)
        requires
            self.wf(),
        ensures
            r == self.emax_spec(),
    {
        proof {
            assert(self.width * self.num_e >= 0) by (nonlinear_arith)
                requires self.width > 0, self.num_e >= 1;
        }
        (self.min as i128 + (self.width as i128) * (self.num_e as i128)) as i64
    }

    /// How many bins the grid must grow downwards to reach energy `e`.
    pub open spec fn steps_down(&self, e: int) -> int {
        if e >= self.min {
            0
        } else {
            (self.min - e + self.width - 1) / self.width as int
        }
    }

    /// The lowest energy of the grid grown to cover `s`.
    pub open spec fn grown_min(&self, s: State) -> int {
        self.min - self.steps_down(s.energy as int) * self.width
    }

    /// The largest particle count of the grid grown to cover `s`.
    pub open spec fn grown_max_n(&self, s: State) -> int {
        if s.count > self.max_n {
            s.count as int
        } else {
            self.max_n as int
        }
    }

    /// The number of energy bins of the grid grown to cover `s`.
    pub open spec fn grown_num_e(&self, s: State) -> int {
        let base = self.num_e + self.steps_down(s.energy as int);
        let need = (s.energy - self.grown_min(s)) / self.width as int + 1;
        if need > base {
            need
        } else {
            base
        }
    }

    /// The grid grown to cover `s` fits the machine's integers.
    pub open spec fn grow_fits(&self, s: State) -> bool {
        &&& i64::MIN <= self.grown_min(s)
        &&& self.grown_min(s) + self.width * self.grown_num_e(s) <= i64::MAX
        &&& self.grown_num_e(s) * (self.grown_max_n(s) + 1) <= usize::MAX
    }

    /// `new` is `self` grown to cover `s`: every old cell is kept at its
    /// remapped place, new cells are blank, and the per-count arrays of new
    /// counts start from the translation scale of count zero.
    pub open spec fn grown_into(&self, new: Bins, s: State) -> bool {
        let k = self.steps_down(s.energy as int);
        let m = self.max_n as int;
        let nm = new.max_n as int;
        &&& new.wf()
        &&& new.min == self.grown_min(s)
        &&& new.width == self.width
        &&& new.max_n == self.grown_max_n(s)
        &&& new.num_e == self.grown_num_e(s)
        &&& forall|q: int, r: int| 0 <= q < new.num_e && 0 <= r <= nm ==> {
            &&& #[trigger] new.lnw@[cell_index(nm, q, r)] == moved(self.lnw@, m, self.num_e as int, k, q, r, 0u64)
            &&& new.histogram@[cell_index(nm, q, r)] == moved(self.histogram@, m, self.num_e as int, k, q, r, 0u64)
            &&& new.have_visited_since_maxentropy@[cell_index(nm, q, r)]
                == moved(self.have_visited_since_maxentropy@, m, self.num_e as int, k, q, r, false)
            &&& new.round_trips@[cell_index(nm, q, r)] == moved(self.round_trips@, m, self.num_e as int, k, q, r, 0u64)
        }
        &&& forall|n: int| 0 <= n <= nm ==> {
            &&& #[trigger] new.translation_scale@[n] == widened(self.translation_scale@, m, n, self.translation_scale@[0])
            &&& new.num_translation_attempts@[n] == widened(self.num_translation_attempts@, m, n, 0u64)
            &&& new.num_translation_accepted@[n] == widened(self.num_translation_accepted@, m, n, 0u64)
        }
        &&& new.num_addremove_attempts == self.num_addremove_attempts
        &&& new.num_addremove_accepted == self.num_addremove_accepted
        &&& new.max_s == self.max_s
        &&& new.max_s_index == new.index_of(self.state_at(self.max_s_index as int))
        &&& new.num_states == self.num_states
        &&& new.t_last == self.t_last
    }

    /// Steps down far enough reach `e`, and no further.
    pub proof fn lemma_steps_down(&self, e: int)
        requires
            self.width > 0,
        ensures
            self.steps_down(e) >= 0,
            e >= self.min ==> self.steps_down(e) == 0,
            e < self.min ==> self.min - self.steps_down(e) * self.width <= e
                < self.min - self.steps_down(e) * self.width + self.width,
    {
        if e < self.min {
            let w = self.width as int;
            let d = self.min - e;
            let k = (d + w - 1) / w;
            lemma_fundamental_div_mod(d + w - 1, w);
            assert(k * w == w * k) by (nonlinear_arith);
            assert(k >= 0) by (nonlinear_arith) requires k * w + (d + w - 1) % w == d + w - 1, (d + w - 1) % w < w, d > 0, w > 0;
        }
    }

    /// Makes room in the grid for state `s`.  Returns whether the grid had
    /// to grow.
    pub fn prepare_for_state(&mut self, s: State) -> (r: bool)
        requires
            old(self).wf(),
            old(self).covers(s) || old(self).grow_fits(s),
        ensures
            r == !old(self).covers(s),
            !r ==> *final(self) == *old(self),
            r ==> old(self).grown_into(*final(self), s),
            final(self).wf(),
            final(self).covers(s),
    {
        let emax = self.emax();
        if s.count <= self.max_n && self.min <= s.energy && s.energy < emax {
            return false;
        }
        let (k, new_min, new_num_e) = self.grow_shape(s);
        let new_m: usize = if s.count > self.max_n { s.count } else { self.max_n };
        proof {
            assert(new_num_e <= new_num_e * (new_m + 1)) by (nonlinear_arith)
                requires new_num_e >= 1;
            assert(new_m + 1 <= new_num_e * (new_m + 1)) by (nonlinear_arith)
                requires new_num_e >= 1;
        }
        let new_num_e: usize = new_num_e as usize;
        let k: usize = k as usize;
        let lnw = regrid(&self.lnw, self.max_n, self.num_e, k, new_m, new_num_e, 0u64);
        let histogram = regrid(&self.histogram, self.max_n, self.num_e, k, new_m, new_num_e, 0u64);
        let visited = regrid(&self.have_visited_since_maxentropy, self.max_n, self.num_e, k, new_m, new_num_e, false);
        let round_trips = regrid(&self.round_trips, self.max_n, self.num_e, k, new_m, new_num_e, 0u64);
        let scale0: u64 = self.translation_scale[0];
        let translation_scale = widen(&self.translation_scale, new_m, scale0);
        let attempts = widen(&self.num_translation_attempts, new_m, 0u64);
        let accepted = widen(&self.num_translation_accepted, new_m, 0u64);
        let old_m: usize = self.max_n;
        let q0: usize = self.max_s_index / (old_m + 1);
        let r0: usize = self.max_s_index % (old_m + 1);
        proof {
            let ghost shifted = Bins { min: new_min as i64, max_n: new_m, ..*self };
            lemma_shifted_index(*self, shifted, k as int, self.max_s_index as int);
            lemma_cell_bound(new_m as int, new_num_e as int, q0 + k, r0 as int);
        }
        let max_s_index: usize = (q0 + k) * (new_m + 1) + r0;
        let ghost prev = *self;
        self.min = new_min as i64;
        self.max_s_index = max_s_index;
        self.lnw = lnw;
        self.histogram = histogram;
        self.have_visited_since_maxentropy = visited;
        self.round_trips = round_trips;
        self.translation_scale = translation_scale;
        self.num_translation_attempts = attempts;
        self.num_translation_accepted = accepted;
        self.max_n = new_m;
        self.num_e = new_num_e;
        proof {
            assert(prev.nbins_spec() <= self.nbins_spec()) by (nonlinear_arith)
                requires prev.num_e <= self.num_e, prev.max_n <= self.max_n;
            assert(self.width * self.num_e >= 0) by (nonlinear_arith)
                requires self.width > 0, self.num_e >= 1;
            let q = self.bin_of(s.energy as int);
            assert(self.min <= s.energy);
            assert(q < self.num_e);
            lemma_fundamental_div_mod(s.energy - self.min, self.width as int);
            assert(q * self.width == self.width * q) by (nonlinear_arith);
            assert((q + 1) * self.width <= self.num_e * self.width) by (nonlinear_arith)
                requires q + 1 <= self.num_e, self.width > 0;
            assert(self.width * self.num_e == self.num_e * self.width) by (nonlinear_arith);
            assert((q + 1) * self.width == q * self.width + self.width) by (nonlinear_arith);
            assert(s.energy - self.min < (q + 1) * self.width);
            assert(s.energy < self.emax_spec());
            assert(s.count <= self.max_n);
        }
        true
    }
}

/// Old cell `i` is cell `(q + k, r)` of a grid `k` bins lower with at
/// least as many counts, where `(q, r)` is its bin and count in the old grid.
pub proof fn lemma_shifted_index(old: Bins, new: Bins, k: int, i: int)
    requires
        old.wf(),
        0 <= k,
        new.min == old.min - k * old.width,
        new.width == old.width,
        new.max_n >= old.max_n,
        0 <= i < old.nbins_spec(),
    ensures
        i / (old.max_n + 1) < old.num_e,
        i % (old.max_n + 1) <= old.max_n,
        cell_index(old.max_n as int, i / (old.max_n + 1), i % (old.max_n + 1)) == i,
        new.bin_of(old.state_at(i).energy as int) == i / (old.max_n + 1) + k,
        new.index_of(old.state_at(i))
            == cell_index(new.max_n as int, i / (old.max_n + 1) + k, i % (old.max_n + 1)),
{
    let m = old.max_n + 1;
    let q = i / m;
    let r = i % m;
    let w = old.width as int;
    old.lemma_index_round_trip(i);
    lemma_fundamental_div_mod(i, m);
    assert(m * q == q * m) by (nonlinear_arith);
    assert(q < old.num_e) by (nonlinear_arith)
        requires i < old.num_e * m, i == m * q + r, r >= 0, m >= 1;
    old.lemma_center_in_bin(q);
    let st = old.state_at(i);
    assert(st.energy == old.center(q));
    assert(st.energy - new.min == (q + k) * w + w / 2) by (nonlinear_arith)
        requires st.energy == old.min + q * w + w / 2, new.min == old.min - k * w;
    lemma_fundamental_div_mod_converse(st.energy - new.min, w, q + k, w / 2);
}

/// Growing the grid keeps every stored cell: the state that stood for old
/// cell `i` finds, in the grown grid, the histogram count, log-weight,
/// visit flag and round-trip count that cell had.  (Cells that did not
/// exist before are blank, as `grown_into` states.)
pub proof fn lemma_grow_keeps_cells(old: Bins, new: Bins, s: State, i: int)
    requires
        old.wf(),
        old.grown_into(new, s),
        0 <= i < old.nbins_spec(),
    ensures
        new.covers(old.state_at(i)),
        new.index_of(old.state_at(i)) < new.nbins_spec(),
        new.lnw@[new.index_of(old.state_at(i))] == old.lnw@[i],
        new.histogram@[new.index_of(old.state_at(i))] == old.histogram@[i],
        new.have_visited_since_maxentropy@[new.index_of(old.state_at(i))]
            == old.have_visited_since_maxentropy@[i],
        new.round_trips@[new.index_of(old.state_at(i))] == old.round_trips@[i],
{
    let m = old.max_n + 1;
    let q = i / m;
    let r = i % m;
    let k = old.steps_down(s.energy as int);
    old.lemma_steps_down(s.energy as int);
    lemma_shifted_index(old, new, k, i);
    lemma_cell_bound(new.max_n as int, new.num_e as int, q + k, r);
    assert(new.width * new.num_e >= 0) by (nonlinear_arith)
        requires new.width > 0, new.num_e >= 1;
    new.lemma_center_in_bin(q + k);
    old.lemma_center_in_bin(q);
    let w = old.width as int;
    assert(old.center(q) == new.center(q + k)) by (nonlinear_arith)
        requires new.min == old.min - k * w, new.width == w,
            new.center(q + k) == new.min + (q + k) * new.width + new.width / 2,
            old.center(q) == old.min + q * w + w / 2;
    assert(new.lnw@[cell_index(new.max_n as int, q + k, r)] == old.lnw@[i]);
}

/// Growing the grid adds only blank cells: a cell of the grown grid whose
/// state the old grid did not hold has a zero histogram count, log-weight
/// and round-trip count, and no visit mark.
pub proof fn lemma_grow_blanks_new_cells(old: Bins, new: Bins, s: State, x: int)
    requires
        old.wf(),
        old.grown_into(new, s),
        0 <= x < new.nbins_spec(),
        !old.covers(new.state_at(x)),
    ensures
        new.lnw@[x] == 0,
        new.histogram@[x] == 0,
        !new.have_visited_since_maxentropy@[x],
        new.round_trips@[x] == 0,
{
    let nm = new.max_n + 1;
    let q = x / nm;
    let r = x % nm;
    let k = old.steps_down(s.energy as int);
    let w = old.width as int;
    old.lemma_steps_down(s.energy as int);
    lemma_fundamental_div_mod(x, nm);
    assert(nm * q == q * nm) by (nonlinear_arith);
    assert(q < new.num_e) by (nonlinear_arith)
        requires x < new.num_e * nm, x == nm * q + r, r >= 0, nm >= 1;
    assert(cell_index(new.max_n as int, q, r) == x);
    if k <= q < k + old.num_e && r <= old.max_n {
        new.lemma_center_in_bin(q);
        old.lemma_center_in_bin(q - k);
        assert(new.center(q) == old.center(q - k)) by (nonlinear_arith)
            requires new.min == old.min - k * w, new.width == w,
                new.center(q) == new.min + q * new.width + new.width / 2,
                old.center(q - k) == old.min + (q - k) * w + w / 2;
        assert(old.covers(new.state_at(x)));
    }
}

/// A grown grid holds every state the old one held.
pub proof fn lemma_grow_covers_more(old: Bins, new: Bins, s: State, t: State)
    requires
        old.wf(),
        old.grown_into(new, s),
        old.covers(t),
    ensures
        new.covers(t),
{
    let k = old.steps_down(s.energy as int);
    let w = old.width as int;
    old.lemma_steps_down(s.energy as int);
    assert(w * (old.num_e + k) == w * old.num_e + k * w) by (nonlinear_arith);
    assert(w * new.num_e >= w * (old.num_e + k)) by (nonlinear_arith)
        requires new.num_e >= old.num_e + k, w > 0;
}

} // verus!
