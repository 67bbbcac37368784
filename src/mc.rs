use vstd::prelude::*;
use crate::bins::{Bins, start_table, visit_recorded};
use crate::state::State;
use crate::temperature::{Ratio, estimate, in_range};
use rand::rngs::StdRng;
use rand::Rng;

verus! {

/// The fixed-point value that stands for a log-weight (or modification
/// factor) of one.
pub const WEIGHT_ONE: u64 = 4294967296;

/// Which weight-update method to run.
#[derive(Debug, Clone, Copy, PartialEq, Eq, Structural)]
pub enum MethodParams {
    /// Stochastic approximation: the modification factor is one up to move
    /// `t0`, and `t0 / t` after it.
    Samc { t0: u64 },
    /// Wang-Landau: the modification factor halves each time an auxiliary
    /// histogram is flat.
    WL,
}

/// The weight-update method with its state.
#[derive(Debug, Clone)]
pub enum Method {
    /// Stochastic approximation.
    Samc { t0: u64 },
    /// Wang-Landau, with its auxiliary histogram `bins`.
    WL { gamma: u64, lowest_hist: u64, highest_hist: u64, total_hist: u64, bins: Bins },
}

#[verifier::external_type_specification]
#[verifier::external_body]
pub struct ExStdRng(StdRng);

/// Relies on rand's `Rng::gen::<u64>` on `StdRng`: a random word.  Nothing
/// is promised of its value.
#[verifier::external_body]
fn random_word(rng: &mut StdRng) -> (r: u64) {
    rng.gen::<u64>()
}

/// A change of particle count.
#[derive(Debug, Clone, Copy, PartialEq, Eq, Structural)]
pub enum Change {
    Add,
    Remove,
}

/// `x + 1`, held at the type's maximum.
pub open spec fn inc(x: u64) -> u64 {
    x.saturating_add(1)
}

/// Whether a candidate of log-weight `lnw2` is turned down from a state of
/// log-weight `lnw1`, given `draw`, minus the log of a uniform number in
/// `(0, 1]`, in weight units.  The move is taken with probability
/// `min(1, exp(lnw1 - lnw2))`.
pub open spec fn rejected(lnw1: u64, lnw2: u64, draw: u64) -> bool {
    lnw2 > lnw1 + draw
}

/// `v` is the least non-zero count of `aux`.
pub open spec fn least_nonzero_is(aux: Seq<u64>, v: int) -> bool {
    &&& exists|j: int| 0 <= j < aux.len() && aux[j] != 0 && aux[j] == v
    &&& forall|j: int| 0 <= j < aux.len() && aux[j] != 0 ==> aux[j] >= v
}

/// The flatness criterion: the least non-zero auxiliary count `lowest` is
/// at least four fifths of the mean count `total / num_states` (the
/// states occupied in the main table), on an auxiliary grid of more than
/// one cell.
pub open spec fn flat_enough(ncells: int, lowest: int, total: int, num_states: int) -> bool {
    ncells > 1 && 5 * (lowest * num_states) >= 4 * total
}

/// The modification factor after a halving: half of `g`, but never below
/// the smallest weight unit.
pub open spec fn halved(g: u64) -> u64 {
    if g > 1 {
        g / 2
    } else {
        1
    }
}

/// The auxiliary histogram of `o` after one more visit to cell `i`.
pub open spec fn wl_seen(o: Method, i: int) -> Seq<u64> {
    o->WL_bins.histogram@.update(i, inc(o->WL_bins.histogram@[i]))
}

/// Whether one more visit to cell `i` completes a level of the schedule:
/// the visited count now equals `lowest_hist + 1` and is the least
/// non-zero auxiliary count.
pub open spec fn wl_level(o: Method, i: int) -> bool {
    let h = inc(o->WL_bins.histogram@[i]);
    h == o->WL_lowest_hist + 1 && least_nonzero_is(wl_seen(o, i), h as int)
}

/// Whether one more visit to cell `i` finds the auxiliary histogram flat,
/// so that the modification factor halves.
pub open spec fn wl_halves(o: Method, i: int, num_states: int) -> bool {
    let h = inc(o->WL_bins.histogram@[i]);
    wl_level(o, i)
        && flat_enough(wl_seen(o, i).len() as int, h as int, inc(o->WL_total_hist) as int, num_states)
}

/// One Wang-Landau update at cell `i` takes `o` to `n`: the auxiliary
/// count of `i` goes up by one, and where that completes a level it
/// becomes the new `lowest_hist`; where the histogram is then flat enough,
/// the modification factor halves and the auxiliary histogram starts again
/// from zero.
pub open spec fn wl_step(o: Method, n: Method, i: int, num_states: int) -> bool {
    let aux = o->WL_bins;
    let h = inc(aux.histogram@[i]);
    let seen = wl_seen(o, i);
    let total = inc(o->WL_total_hist);
    let step = wl_level(o, i);
    let halve = wl_halves(o, i, num_states);
    &&& n is WL
    &&& n->WL_highest_hist == if h > o->WL_highest_hist { h } else { o->WL_highest_hist }
    &&& n->WL_gamma == if halve { halved(o->WL_gamma) } else { o->WL_gamma }
    &&& n->WL_total_hist == if halve { 0 } else { total }
    &&& n->WL_lowest_hist == if halve { 0 } else if step { h } else { o->WL_lowest_hist }
    &&& n->WL_bins.histogram@ == if halve { Seq::new(seen.len(), |j: int| 0u64) } else { seen }
    &&& n->WL_bins == (Bins { histogram: n->WL_bins.histogram, ..aux })
}

/// Under Wang-Landau, a weight update never raises the modification
/// factor and keeps it at least one unit.  It halves it (down to one unit)
/// and clears the auxiliary histogram only when that histogram, on a grid
/// of more than one cell, has its least non-zero count at least four
/// fifths of the mean count; otherwise the factor stays and the visited
/// auxiliary count goes up by one.
pub proof fn lemma_gamma_halves_only_when_flat(o: Method, n: Method, i: int, num_states: int)
    requires
        o is WL,
        o->WL_gamma >= 1,
        0 <= i < o->WL_bins.histogram.len(),
        wl_step(o, n, i, num_states),
    ensures
        1 <= n->WL_gamma <= o->WL_gamma,
        n->WL_gamma == o->WL_gamma || n->WL_gamma == o->WL_gamma / 2,
        wl_halves(o, i, num_states) ==> {
            let lowest = inc(o->WL_bins.histogram@[i]) as int;
            &&& least_nonzero_is(wl_seen(o, i), lowest)
            &&& flat_enough(wl_seen(o, i).len() as int, lowest, inc(o->WL_total_hist) as int, num_states)
            &&& n->WL_gamma == halved(o->WL_gamma)
            &&& n->WL_total_hist == 0
            &&& n->WL_lowest_hist == 0
            &&& forall|j: int| 0 <= j < n->WL_bins.histogram.len() ==> n->WL_bins.histogram@[j] == 0
        },
        !wl_halves(o, i, num_states) ==> {
            &&& n->WL_gamma == o->WL_gamma
            &&& n->WL_bins.histogram@ == wl_seen(o, i)
            &&& n->WL_total_hist == inc(o->WL_total_hist)
        },
{
}

/// The two grids have the same shape.
pub open spec fn same_shape(a: Bins, b: Bins) -> bool {
    &&& a.min == b.min
    &&& a.width == b.width
    &&& a.max_n == b.max_n
    &&& a.num_e == b.num_e
}

/// Decides whether to turn a candidate down; see `rejected`.  A candidate
/// whose log-weight is no higher than the current one is always taken.
pub fn reject(lnw1: u64, lnw2: u64, draw: u64) -> (r: bool)
    ensures
        r == rejected(lnw1, lnw2, draw),
        lnw2 <= lnw1 ==> !r,
{
    lnw2 > lnw1 && lnw2 - lnw1 > draw
}

/// The modification factor of the stochastic-approximation schedule after
/// `t` moves, in weight units: one up to `t0`, `t0 / t` (rounded down)
/// after it.
pub open spec fn samc_gamma(t0: u64, t: u64) -> int {
    if t > t0 {
        (WEIGHT_ONE * t0) as int / t as int
    } else {
        WEIGHT_ONE as int
    }
}

/// The adaptive sampler over energy and particle count.  The physical
/// system, the random source and the diagnostics stand outside it: callers
/// hand it the states and draws they produce.
#[derive(Debug, Clone)]
pub struct EnergyNumberMC {
    /// The weight-update method.
    pub method: Method,
    /// The number of moves made.
    pub moves: u64,
    /// The number of moves accepted.
    pub accepted_moves: u64,
    /// The energy/number table.
    pub bins: Bins,
    /// The largest particle count allowed, if any.
    pub max_n: Option<usize>,
}

impl EnergyNumberMC {
    /// The table is well formed, and a Wang-Landau auxiliary grid has the
    /// shape of the main one.
    pub open spec fn wf(&self) -> bool {
        &&& self.bins.wf()
        &&& self.bins.t_last >= 1
        &&& match self.method {
            Method::Samc { .. } => true,
            Method::WL { gamma, bins, .. } => {
                &&& 1 <= gamma <= WEIGHT_ONE
                &&& bins.wf()
                &&& same_shape(bins, self.bins)
                &&& bins.t_last >= 1
            },
        }
    }

    /// The modification factor now, in weight units.
    pub open spec fn gamma_spec(&self) -> int {
        match self.method {
            Method::Samc { t0 } => samc_gamma(t0, self.moves),
            Method::WL { gamma, .. } => gamma as int,
        }
    }

    /// A sampler whose grids hold one bin centred on the initial state's
    /// energy, grown to hold its particle count.
    pub fn new(
        params: MethodParams,
        initial: State,
        width: i64,
        translation_scale: u64,
        max_n: Option<usize>,
    ) -> (r: EnergyNumberMC)
        requires
            width > 0,
            i64::MIN <= initial.energy - width / 2,
            initial.energy - width / 2 + width <= i64::MAX,
            initial.count < usize::MAX,
        ensures
            r.wf(),
            r.moves == 0,
            r.accepted_moves == 0,
            r.max_n == max_n,
            r.bins.min == initial.energy - width / 2,
            r.bins.width == width,
            r.bins.num_e == 1,
            r.bins.max_n == initial.count,
            r.bins.covers(initial),
            start_table(r.bins, initial, width, translation_scale),
            forall|n: int| 0 <= n <= r.bins.max_n ==> #[trigger] r.bins.translation_scale@[n] == translation_scale,
            params is Samc ==> r.method == (Method::Samc { t0: params->Samc_t0 }),
            (params is WL) ==> ({
                &&& r.method is WL
                &&& r.method->WL_gamma == WEIGHT_ONE
                &&& r.method->WL_lowest_hist == 1
                &&& r.method->WL_highest_hist == 1
                &&& r.method->WL_total_hist == 0
                &&& start_table(r.method->WL_bins, initial, width, translation_scale)
            }),
    {
        let mut bins = Bins::new(initial.energy, width, translation_scale);
        let ghost b0 = bins;
        proof {
            b0.lemma_steps_down(initial.energy as int);
            assert(b0.grown_num_e(initial) == 1);
            assert(b0.grow_fits(initial));
        }
        bins.prepare_for_state(initial);
        proof {
            assert(start_table(bins, initial, width, translation_scale));
            assert forall|n: int| 0 <= n <= bins.max_n implies #[trigger] bins.translation_scale@[n] == translation_scale by {
                if initial.count != 0 {
                    assert(bins.translation_scale@[n] == crate::bins::widened(b0.translation_scale@, 0, n, translation_scale));
                }
            }
        }
        let method = match params {
            MethodParams::Samc { t0 } => Method::Samc { t0 },
            MethodParams::WL => {
                let mut aux = Bins::new(initial.energy, width, translation_scale);
                aux.prepare_for_state(initial);
                proof {
                    assert(start_table(aux, initial, width, translation_scale));
                }
                Method::WL { gamma: WEIGHT_ONE, lowest_hist: 1, highest_hist: 1, total_hist: 0, bins: aux }
            },
        };
        EnergyNumberMC { method, moves: 0, accepted_moves: 0, bins, max_n }
    }

    /// The modification factor now, in weight units.
    pub fn gamma(&self) -> (r: u64)
        ensures
            r == self.gamma_spec(),
            self.method is Samc && self.moves <= self.method->Samc_t0 ==> r == WEIGHT_ONE,
            self.wf() && self.method is WL ==> 1 <= r <= WEIGHT_ONE,
    {
        match &self.method {
            Method::Samc { t0 } => {
                if self.moves > *t0 {
                    proof {
                        assert((WEIGHT_ONE * *t0) as int / self.moves as int <= WEIGHT_ONE) by (nonlinear_arith)
                            requires self.moves > *t0;
                    }
                    ((WEIGHT_ONE as u128 * *t0 as u128) / self.moves as u128) as u64
                } else {
                    WEIGHT_ONE
                }
            },
            Method::WL { gamma, .. } => *gamma,
        }
    }

    /// Makes room in the grids for state `s`.  Where a Wang-Landau
    /// auxiliary grid had to grow past its initial phase, its flatness
    /// schedule starts over.  Returns whether the grids grew.
    pub fn prepare_for_state(&mut self, s: State) -> (r: bool)
        requires
            old(self).wf(),
            old(self).bins.covers(s) || old(self).bins.grow_fits(s),
        ensures
            final(self).wf(),
            final(self).bins.covers(s),
            r == !old(self).bins.covers(s),
            !r ==> *final(self) == *old(self),
            r ==> old(self).bins.grown_into(final(self).bins, s),
            final(self).moves == old(self).moves,
            final(self).accepted_moves == old(self).accepted_moves,
            final(self).max_n == old(self).max_n,
            old(self).method is Samc ==> final(self).method == old(self).method,
            old(self).method is WL ==> {
                let o = old(self).method;
                let n = final(self).method;
                let restart = r && (o->WL_gamma != WEIGHT_ONE || o->WL_bins.histogram.len() == 0);
                &&& n is WL
                &&& r ==> o->WL_bins.grown_into(n->WL_bins, s)
                &&& n->WL_gamma == if restart { WEIGHT_ONE } else { o->WL_gamma }
                &&& n->WL_lowest_hist == if restart { 0 } else { o->WL_lowest_hist }
                &&& n->WL_highest_hist == if restart { 0 } else { o->WL_highest_hist }
                &&& n->WL_total_hist == if restart { 0 } else { o->WL_total_hist }
            },
    {
        let grew = self.bins.prepare_for_state(s);
        match &mut self.method {
            Method::Samc { .. } => {},
            Method::WL { gamma, lowest_hist, highest_hist, total_hist, bins } => {
                if bins.prepare_for_state(s) {
                    if *gamma != WEIGHT_ONE || bins.histogram.len() == 0 {
                        *gamma = WEIGHT_ONE;
                        *lowest_hist = 0;
                        *highest_hist = 0;
                        *total_hist = 0;
                    }
                }
            },
        }
        grew
    }

    /// The index of a state in the table.
    pub fn state_to_index(&self, s: State) -> (r: usize)
        requires
            self.wf(),
            self.bins.covers(s),
        ensures
            r == self.bins.index_of(s),
            r < self.bins.nbins_spec(),
    {
        proof {
            self.bins.lemma_covered_index(s);
        }
        self.bins.state_to_index(s)
    }

    /// The state that stands for index `i` of the table.
    pub fn index_to_state(&self, i: usize) -> (r: State)
        requires
            self.wf(),
            i < self.bins.nbins_spec(),
        ensures
            r == self.bins.state_at(i as int),
    {
        self.bins.index_to_state(i)
    }

    /// Estimates the temperature at state `s` from the table's log-weights.
    pub fn temperature(&self, s: State) -> (r: Option<Ratio>)
        requires
            self.wf(),
            in_range(self.bins),
            self.bins.covers(s),
        ensures
            r is None <==> estimate(self.bins, s) is None,
            r is Some ==> estimate(self.bins, s) == Some((r->0.num as int, r->0.den as int)),
    {
        self.bins.temperature(s)
    }

    /// Counts one more move.
    pub fn begin_move(&mut self)
        requires
            old(self).wf(),
        ensures
            final(self).wf(),
            *final(self) == (EnergyNumberMC { moves: inc(old(self).moves), ..*old(self) }),
    {
        self.moves = self.moves.saturating_add(1);
    }

    /// Counts a translation attempt at particle count `n`.
    pub fn record_translation_attempt(&mut self, n: usize)
        requires
            old(self).wf(),
            n <= old(self).bins.max_n,
        ensures
            final(self).wf(),
            final(self).bins.num_translation_attempts@ == old(self).bins.num_translation_attempts@.update(
                n as int,
                inc(old(self).bins.num_translation_attempts@[n as int]),
            ),
            *final(self) == (EnergyNumberMC {
                bins: Bins { num_translation_attempts: final(self).bins.num_translation_attempts, ..old(self).bins },
                ..*old(self)
            }),
    {
        let t: u64 = self.bins.num_translation_attempts[n].saturating_add(1);
        self.bins.num_translation_attempts.set(n, t);
    }

    /// Counts an add/remove attempt.
    pub fn record_addremove_attempt(&mut self)
        requires
            old(self).wf(),
        ensures
            final(self).wf(),
            *final(self) == (EnergyNumberMC {
                bins: Bins { num_addremove_attempts: inc(old(self).bins.num_addremove_attempts), ..old(self).bins },
                ..*old(self)
            }),
    {
        self.bins.num_addremove_attempts = self.bins.num_addremove_attempts.saturating_add(1);
    }

    /// Whether a particle may be added to a system of `n` particles: not
    /// when `n` is already the largest count allowed.
    pub fn may_add(&self, n: usize) -> (r: bool)
        ensures
            r == (self.max_n != Some(n)),
    {
        match self.max_n {
            Some(m) => m != n,
            None => true,
        }
    }

    /// Picks the change of particle count to try from a system of `n`
    /// particles, given a random `coin`: an even coin adds, unless `n` is the
    /// largest count allowed; an odd one removes, unless `n` is zero.
    pub fn pick_change(&self, coin: u64, n: usize) -> (r: Option<Change>)
        ensures
            coin % 2 == 0 ==> r == if self.max_n == Some(n) { None } else { Some(Change::Add) },
            coin % 2 == 1 ==> r == if n == 0 { None } else { Some(Change::Remove) },
    {
        if coin % 2 == 0 {
            if self.may_add(n) {
                Some(Change::Add)
            } else {
                None
            }
        } else if n > 0 {
            Some(Change::Remove)
        } else {
            None
        }
    }

    /// Picks the change of particle count to try from a system of `n`
    /// particles with a coin drawn from `rng`; see `pick_change`.  Whatever
    /// the coin, no add is tried at the largest count allowed and no remove
    /// at zero.
    pub fn pick_random_change(&self, rng: &mut StdRng, n: usize) -> (r: Option<Change>)
        ensures
            r == Some(Change::Add) ==> self.max_n != Some(n),
            r == Some(Change::Remove) ==> n > 0,
            r is None ==> self.max_n == Some(n) || n == 0,
    {
        let coin = random_word(rng);
        self.pick_change(coin, n)
    }

    /// The last occupied cell whose Wang-Landau auxiliary count is `v`, if
    /// any; `None` under stochastic approximation.
    pub fn last_occupied_with(&self, v: u64) -> (r: Option<usize>)
        requires
            self.wf(),
        ensures
            self.method is Samc ==> r is None,
            self.method is WL ==> {
                let aux = self.method->WL_bins.histogram@;
                let main = self.bins.histogram@;
                &&& r is None ==> forall|j: int| 0 <= j < aux.len() ==> !(aux[j] == v && main[j] != 0)
                &&& r is Some ==> {
                    &&& r->0 < aux.len()
                    &&& aux[r->0 as int] == v
                    &&& main[r->0 as int] != 0
                    &&& forall|j: int| r->0 < j < aux.len() ==> !(aux[j] == v && main[j] != 0)
                }
            },
    {
        match &self.method {
            Method::Samc { .. } => None,
            Method::WL { bins, .. } => {
                let mut found: Option<usize> = None;
                let mut j: usize = 0;
                while j < bins.histogram.len()
                    invariant
                        j <= bins.histogram.len(),
                        bins.histogram.len() == self.bins.histogram.len(),
                        found is None ==> forall|x: int| 0 <= x < j ==> !(bins.histogram@[x] == v && self.bins.histogram@[x] != 0),
                        found is Some ==> {
                            &&& found->0 < j
                            &&& bins.histogram@[found->0 as int] == v
                            &&& self.bins.histogram@[found->0 as int] != 0
                            &&& forall|x: int| found->0 < x < j ==> !(bins.histogram@[x] == v && self.bins.histogram@[x] != 0)
                        },
                    decreases bins.histogram.len() - j,
                {
                    if bins.histogram[j] == v && self.bins.histogram[j] != 0 {
                        found = Some(j);
                    }
                    j = j + 1;
                }
                found
            },
        }
    }

    /// Decides a move from `e1` to the candidate `e2`, both held by the
    /// grid, given `draw` (see `rejected`), and counts it when taken, as a
    /// translation or as an add/remove.  Returns whether it was taken.
    pub fn consider_move(&mut self, e1: State, e2: State, draw: u64, translation: bool) -> (r: bool)
        requires
            old(self).wf(),
            old(self).bins.covers(e1),
            old(self).bins.covers(e2),
        ensures
            final(self).wf(),
            r == !rejected(
                old(self).bins.lnw@[old(self).bins.index_of(e1)],
                old(self).bins.lnw@[old(self).bins.index_of(e2)],
                draw,
            ),
            old(self).bins.lnw@[old(self).bins.index_of(e2)] <= old(self).bins.lnw@[old(self).bins.index_of(e1)] ==> r,
            final(self).accepted_moves == if r { inc(old(self).accepted_moves) } else { old(self).accepted_moves },
            final(self).bins.num_translation_accepted@ == if r && translation {
                old(self).bins.num_translation_accepted@.update(
                    e1.count as int,
                    inc(old(self).bins.num_translation_accepted@[e1.count as int]),
                )
            } else {
                old(self).bins.num_translation_accepted@
            },
            final(self).bins.num_addremove_accepted == if r && !translation {
                inc(old(self).bins.num_addremove_accepted)
            } else {
                old(self).bins.num_addremove_accepted
            },
            *final(self) == (EnergyNumberMC {
                accepted_moves: final(self).accepted_moves,
                bins: Bins {
                    num_translation_accepted: final(self).bins.num_translation_accepted,
                    num_addremove_accepted: final(self).bins.num_addremove_accepted,
                    ..old(self).bins
                },
                ..*old(self)
            }),
    {
        proof {
            self.bins.lemma_covered_index(e1);
            self.bins.lemma_covered_index(e2);
        }
        let i1 = self.bins.state_to_index(e1);
        let i2 = self.bins.state_to_index(e2);
        let rejected = reject(self.bins.lnw[i1], self.bins.lnw[i2], draw);
        if !rejected {
            self.accepted_moves = self.accepted_moves.saturating_add(1);
            if translation {
                let t: u64 = self.bins.num_translation_accepted[e1.count].saturating_add(1);
                self.bins.num_translation_accepted.set(e1.count, t);
            } else {
                self.bins.num_addremove_accepted = self.bins.num_addremove_accepted.saturating_add(1);
            }
        }
        !rejected
    }

    /// Ends a move that started at `e1` and left the system at `e`: counts
    /// a newly discovered cell, records the visit in the histogram, updates
    /// the weights, and keeps the round-trip bookkeeping.  Returns whether
    /// the move count is a multiple of the time of the last discovery, when
    /// the add/remove probability is due to be retuned.
    pub fn finish_move(&mut self, e1: State, e: State) -> (due: bool)
        requires
            old(self).wf(),
            old(self).moves >= 1,
            old(self).bins.covers(e1),
            old(self).bins.covers(e),
        ensures
            final(self).wf(),
            ({
                let o = *old(self);
                let n = *final(self);
                let i = o.bins.index_of(e);
                let fresh = o.bins.histogram@[i] == 0;
                let mid = EnergyNumberMC {
                    bins: Bins {
                        num_states: if fresh { o.bins.num_states.saturating_add(1) } else { o.bins.num_states },
                        t_last: if fresh { o.moves } else { o.bins.t_last },
                        ..o.bins
                    },
                    ..o
                };
                &&& n.bins.t_last == mid.bins.t_last
                &&& n.bins.num_states == mid.bins.num_states
                &&& due == (o.moves % mid.bins.t_last == 0)
                &&& n.bins.histogram@ == o.bins.histogram@.update(i, inc(o.bins.histogram@[i]))
                &&& n.bins.lnw@ == o.bins.lnw@.update(i, o.bins.lnw@[i].saturating_add(o.gamma_spec() as u64))
                &&& o.method is Samc ==> n.method == o.method
                &&& o.method is WL ==> wl_step(o.method, n.method, i, n.bins.num_states as int)
                &&& visit_recorded(
                    Bins { lnw: n.bins.lnw, histogram: n.bins.histogram, ..mid.bins },
                    n.bins,
                    o.bins.index_of(e1),
                    i,
                )
                &&& n.moves == o.moves
                &&& n.accepted_moves == o.accepted_moves
                &&& n.max_n == o.max_n
            }),
    {
        proof {
            self.bins.lemma_covered_index(e1);
            self.bins.lemma_covered_index(e);
        }
        let from = self.bins.state_to_index(e1);
        let i = self.bins.state_to_index(e);
        if self.bins.histogram[i] == 0 {
            self.bins.num_states = self.bins.num_states.saturating_add(1);
            self.bins.t_last = self.moves;
        }
        let due = self.moves % self.bins.t_last == 0;
        let h: u64 = self.bins.histogram[i].saturating_add(1);
        self.bins.histogram.set(i, h);
        self.update_weights(i);
        self.bins.record_visit(from, i);
        due
    }

    /// Adds the modification factor to the log-weight of cell `i`, and
    /// under Wang-Landau takes one step of the flatness schedule.
    pub fn update_weights(&mut self, i: usize)
        requires
            old(self).wf(),
            i < old(self).bins.nbins_spec(),
        ensures
            final(self).wf(),
            final(self).bins.lnw@ == old(self).bins.lnw@.update(
                i as int,
                old(self).bins.lnw@[i as int].saturating_add(old(self).gamma_spec() as u64),
            ),
            final(self).bins == (Bins { lnw: final(self).bins.lnw, ..old(self).bins }),
            final(self).moves == old(self).moves,
            final(self).accepted_moves == old(self).accepted_moves,
            final(self).max_n == old(self).max_n,
            old(self).method is Samc ==> final(self).method == old(self).method,
            old(self).method is WL ==> wl_step(
                old(self).method,
                final(self).method,
                i as int,
                old(self).bins.num_states as int,
            ),
    {
        let g: u64 = self.gamma();
        let w: u64 = self.bins.lnw[i].saturating_add(g);
        self.bins.lnw.set(i, w);
        let num_states: usize = self.bins.num_states;
        match &mut self.method {
            Method::Samc { .. } => {},
            Method::WL { gamma, lowest_hist, highest_hist, total_hist, bins } => {
                let h: u64 = bins.histogram[i].saturating_add(1);
                bins.histogram.set(i, h);
                if h > *highest_hist {
                    *highest_hist = h;
                }
                *total_hist = total_hist.saturating_add(1);
                let lo = least_nonzero(&bins.histogram);
                proof {
                    if least_nonzero_is(bins.histogram@, h as int) {
                        if lo is Some {
                            lemma_least_unique(bins.histogram@, h as int, lo->0 as int);
                        } else {
                            let j = choose|j: int| 0 <= j < bins.histogram.len() && bins.histogram@[j] != 0 && bins.histogram@[j] == h;
                            assert(bins.histogram@[j] == 0);
                        }
                    }
                }
                if h > 0 && h - 1 == *lowest_hist && lo == Some(h) {
                    *lowest_hist = h;
                    proof {
                        assert((h as int) * (num_states as int) <= u64::MAX * u64::MAX) by (nonlinear_arith)
                            requires h <= u64::MAX, num_states <= u64::MAX, h >= 0, num_states >= 0;
                    }
                    if bins.histogram.len() > 1
                        && (h as u128) * (num_states as u128) >= (4 * (*total_hist as u128) + 4) / 5 {
                        proof {
                            lemma_ceil_fifth(h as int * num_states as int, 4 * *total_hist as int);
                        }
                        if *gamma > 1 {
                            *gamma = *gamma / 2;
                        }
                        clear(&mut bins.histogram);
                        *total_hist = 0;
                        *lowest_hist = 0;
                    } else {
                        proof {
                            lemma_ceil_fifth(h as int * num_states as int, 4 * *total_hist as int);
                        }
                    }
                }
            },
        }
    }
}

/// The least non-zero count is unique.
proof fn lemma_least_unique(aux: Seq<u64>, a: int, b: int)
    requires
        least_nonzero_is(aux, a),
        least_nonzero_is(aux, b),
    ensures
        a == b,
{
    let ja = choose|j: int| 0 <= j < aux.len() && aux[j] != 0 && aux[j] == a;
    let jb = choose|j: int| 0 <= j < aux.len() && aux[j] != 0 && aux[j] == b;
    assert(aux[ja] >= b);
    assert(aux[jb] >= a);
}

/// For whole numbers, `5x >= y` exactly when `x` reaches `y / 5` rounded up.
proof fn lemma_ceil_fifth(x: int, y: int)
    requires
        x >= 0,
        y >= 0,
    ensures
        (x >= (y + 4) / 5) == (5 * x >= y),
{
    vstd::arithmetic::div_mod::lemma_fundamental_div_mod(y + 4, 5);
}

/// The least non-zero count of `aux`, if there is one.
fn least_nonzero(aux: &Vec<u64>) -> (r: Option<u64>)
    ensures
        r is None <==> forall|j: int| 0 <= j < aux.len() ==> aux@[j] == 0,
        r is Some ==> least_nonzero_is(aux@, r->0 as int),
{
    let mut lo: Option<u64> = None;
    let mut j: usize = 0;
    while j < aux.len()
        invariant
            j <= aux.len(),
            lo is None <==> forall|x: int| 0 <= x < j ==> aux@[x] == 0,
            lo is Some ==> {
                &&& exists|x: int| 0 <= x < j && aux@[x] != 0 && aux@[x] == lo->0
                &&& forall|x: int| 0 <= x < j && aux@[x] != 0 ==> aux@[x] >= lo->0
            },
        decreases aux.len() - j,
    {
        let a: u64 = aux[j];
        if a != 0 {
            match lo {
                None => {
                    lo = Some(a);
                },
                Some(m) => {
                    if a < m {
                        lo = Some(a);
                    }
                },
            }
        }
        j = j + 1;
    }
    lo
}

/// Sets every count to zero.
fn clear(v: &mut Vec<u64>)
    ensures
        final(v)@ == Seq::new(old(v).len() as nat, |j: int| 0u64),
{
    let n: usize = v.len();
    let mut j: usize = 0;
    while j < n
        invariant
            j <= n,
            n == v.len(),
            n == old(v).len(),
            forall|x: int| 0 <= x < j ==> #[trigger] v@[x] == 0,
        decreases n - j,
    {
        v.set(j, 0);
        j = j + 1;
    }
    proof {
        assert(v@ =~= Seq::new(old(v).len() as nat, |j: int| 0u64));
    }
}

} // verus!
