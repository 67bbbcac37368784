use rand::SeedableRng;
use energy_number::bins::Bins;
use energy_number::mc::{reject, Change, EnergyNumberMC, Method, MethodParams, WEIGHT_ONE};
use energy_number::state::State;
use energy_number::temperature::Ratio;

fn two_bin_grid() -> Bins {
    let mut b = Bins::new(1, 2, 7);
    assert!(b.prepare_for_state(State::new(3, 0)));
    b
}

#[test]
fn state_new_keeps_fields() {
    let s = State::new(-4, 3);
    assert_eq!(s.energy, -4);
    assert_eq!(s.count, 3);
}

#[test]
fn index_round_trip_on_every_cell() {
    let mut b = Bins::new(0, 3, 1);
    assert!(b.prepare_for_state(State::new(10, 2)));
    assert!(b.prepare_for_state(State::new(-7, 0)));
    assert_eq!(b.nbins(), b.num_e * (b.max_n + 1));
    for i in 0..b.nbins() {
        let s = b.index_to_state(i);
        assert_eq!(b.state_to_index(s), i);
    }
}

#[test]
fn index_formula() {
    let mut b = Bins::new(1, 2, 1);
    assert!(b.prepare_for_state(State::new(5, 1)));
    // min 0, width 2, counts 0..=1
    assert_eq!(b.min, 0);
    assert_eq!(b.max_n, 1);
    assert_eq!(b.num_e, 3);
    assert_eq!(b.state_to_index(State::new(4, 1)), 2 * 2 + 1);
    assert_eq!(b.state_to_index(State::new(3, 0)), 2);
    assert_eq!(b.index_to_state(3), State::new(3, 1));
    assert_eq!(b.emax(), 6);
    assert_eq!(b.energies(), vec![1, 3, 5]);
}

#[test]
fn prepare_inside_grid_changes_nothing() {
    let mut b = two_bin_grid();
    let before_lnw = b.lnw.clone();
    assert!(!b.prepare_for_state(State::new(2, 0)));
    assert_eq!(b.lnw, before_lnw);
    assert_eq!(b.num_e, 2);
}

#[test]
fn grow_keeps_stored_entries_and_blanks_new_ones() {
    let mut b = two_bin_grid();
    b.lnw = vec![11, 22];
    b.histogram = vec![3, 4];
    b.round_trips = vec![5, 6];
    b.have_visited_since_maxentropy = vec![true, false];
    b.num_translation_attempts = vec![9];
    let old = b.clone();
    // grows one bin down and one count up
    assert!(b.prepare_for_state(State::new(-1, 1)));
    assert_eq!(b.min, -2);
    assert_eq!(b.num_e, 3);
    assert_eq!(b.max_n, 1);
    for i in 0..old.nbins() {
        let j = b.state_to_index(old.index_to_state(i));
        assert_eq!(b.lnw[j], old.lnw[i]);
        assert_eq!(b.histogram[j], old.histogram[i]);
        assert_eq!(b.round_trips[j], old.round_trips[i]);
        assert_eq!(b.have_visited_since_maxentropy[j], old.have_visited_since_maxentropy[i]);
    }
    assert_eq!(b.lnw, vec![0, 0, 11, 0, 22, 0]);
    assert_eq!(b.histogram, vec![0, 0, 3, 0, 4, 0]);
    assert_eq!(b.round_trips, vec![0, 0, 5, 0, 6, 0]);
    assert_eq!(b.have_visited_since_maxentropy, vec![false, false, true, false, false, false]);
    assert_eq!(b.translation_scale, vec![7, 7]);
    assert_eq!(b.num_translation_attempts, vec![9, 0]);
}

#[test]
fn grow_upwards_far() {
    let mut b = Bins::new(0, 4, 1);
    assert!(b.prepare_for_state(State::new(37, 0)));
    assert_eq!(b.min, -2);
    assert!(b.emax() > 37);
    assert_eq!(b.num_e, 10);
    assert!(b.can_hold(State::new(100, 0)));
    assert!(b.holds(State::new(37, 0)));
    assert!(!b.holds(State::new(38, 0)));
    assert!(!b.can_hold(State::new(i64::MIN, 0)));
}

#[test]
fn samc_gamma_schedule() {
    let mut mc = EnergyNumberMC::new(MethodParams::Samc { t0: 10 }, State::new(0, 0), 2, 1, None);
    assert_eq!(mc.gamma(), WEIGHT_ONE);
    for _ in 0..10 {
        mc.begin_move();
    }
    assert_eq!(mc.moves, 10);
    assert_eq!(mc.gamma(), WEIGHT_ONE);
    for _ in 0..10 {
        mc.begin_move();
    }
    assert_eq!(mc.gamma(), WEIGHT_ONE / 2);
    for _ in 0..20 {
        mc.begin_move();
    }
    assert_eq!(mc.gamma(), WEIGHT_ONE / 4);
}

#[test]
fn acceptance_rule() {
    assert!(!reject(5, 3, 0));
    assert!(!reject(5, 5, 0));
    assert!(reject(3, 10, 2));
    assert!(!reject(3, 5, 2));
    assert!(reject(0, 1, 0));
    assert!(!reject(0, u64::MAX, u64::MAX));
}

#[test]
fn consider_move_counts_accepted() {
    let mut mc = EnergyNumberMC::new(MethodParams::Samc { t0: 100 }, State::new(1, 0), 2, 1, Some(3));
    let e1 = State::new(1, 0);
    let e2 = State::new(3, 0);
    assert!(mc.prepare_for_state(e2));
    mc.bins.lnw = vec![0, 10];
    assert!(!mc.consider_move(e1, e2, 9, true));
    assert_eq!(mc.accepted_moves, 0);
    assert!(mc.consider_move(e1, e2, 10, true));
    assert_eq!(mc.accepted_moves, 1);
    assert_eq!(mc.bins.num_translation_accepted, vec![1]);
    assert!(mc.consider_move(e2, e1, 0, false));
    assert_eq!(mc.accepted_moves, 2);
    assert_eq!(mc.bins.num_addremove_accepted, 1);
    assert!(mc.may_add(2));
    assert!(!mc.may_add(3));
}

fn wl_parts(mc: &EnergyNumberMC) -> (u64, u64, u64, u64, Vec<u64>) {
    match &mc.method {
        Method::WL { gamma, lowest_hist, highest_hist, total_hist, bins } => {
            (*gamma, *lowest_hist, *highest_hist, *total_hist, bins.histogram.clone())
        }
        Method::Samc { .. } => panic!("expected Wang-Landau"),
    }
}

#[test]
fn wang_landau_halves_when_flat_and_restarts_on_growth() {
    let start = State::new(1, 0);
    let mut mc = EnergyNumberMC::new(MethodParams::WL, start, 2, 1, None);
    assert_eq!(wl_parts(&mc), (WEIGHT_ONE, 1, 1, 0, vec![1]));
    // still in the first phase: growth keeps the counts
    assert!(mc.prepare_for_state(State::new(3, 0)));
    assert_eq!(wl_parts(&mc), (WEIGHT_ONE, 1, 1, 0, vec![1, 0]));

    mc.begin_move();
    assert!(mc.finish_move(start, start));
    assert_eq!(mc.bins.histogram, vec![2, 0]);
    assert_eq!(mc.bins.lnw, vec![WEIGHT_ONE, 0]);
    // the only occupied cell is flat: gamma halves, the histogram clears
    assert_eq!(wl_parts(&mc), (WEIGHT_ONE / 2, 0, 2, 0, vec![0, 0]));

    let next = State::new(3, 0);
    mc.begin_move();
    assert!(mc.consider_move(start, next, u64::MAX, true));
    assert!(mc.finish_move(start, next));
    assert_eq!(mc.bins.num_states, 2);
    assert_eq!(mc.bins.t_last, 2);
    assert_eq!(mc.bins.lnw, vec![WEIGHT_ONE, WEIGHT_ONE / 2]);
    // the only non-zero auxiliary count is the least: 5 * (1 * 2) >= 4 * 1
    assert_eq!(wl_parts(&mc), (WEIGHT_ONE / 4, 0, 2, 0, vec![0, 0]));

    // right after a reset the first visit is again the least non-zero count
    mc.begin_move();
    assert!(!mc.finish_move(next, next));
    assert_eq!(wl_parts(&mc), (WEIGHT_ONE / 8, 0, 2, 0, vec![0, 0]));

    // past the first phase, growth restarts the schedule
    assert!(mc.prepare_for_state(State::new(5, 0)));
    assert_eq!(wl_parts(&mc), (WEIGHT_ONE, 0, 0, 0, vec![0, 0, 0]));
}

#[test]
fn round_trip_counted_once_after_max_entropy_detour() {
    let mut b = two_bin_grid();
    b.lnw = vec![10, 5];
    let max_cell = 0;
    let x = 1;
    b.record_visit(max_cell, max_cell);
    assert_eq!(b.max_s_index, max_cell);
    assert_eq!(b.max_s, 10);
    assert_eq!(b.have_visited_since_maxentropy, vec![true, true]);
    b.record_visit(max_cell, x);
    assert_eq!(b.round_trips[x], 0);
    b.record_visit(x, max_cell);
    assert_eq!(b.have_visited_since_maxentropy, vec![false, false]);
    b.record_visit(max_cell, x);
    assert_eq!(b.round_trips[x], 1);
    b.record_visit(x, x);
    assert_eq!(b.round_trips[x], 1);
    assert_eq!(b.round_trips[max_cell], 1);
}

#[test]
fn scripted_displacements_grow_the_grid() {
    // energies in half units: bins of width 2 from 0, so 1, 3, 1, -1 stand
    // for 0.5, 1.5, 0.5, -0.5 with bins of width 1
    let start = State::new(1, 0);
    let mut mc = EnergyNumberMC::new(MethodParams::Samc { t0: 1000 }, start, 2, 1, Some(0));
    assert_eq!(mc.bins.min, 0);
    assert_eq!(mc.bins.num_e, 1);
    assert_eq!(mc.bins.max_n, 0);
    let mut current = start;
    for e in [1i64, 3, 1, -1] {
        let e2 = State::new(e, 0);
        mc.begin_move();
        mc.record_translation_attempt(current.count);
        mc.prepare_for_state(e2);
        let e1 = current;
        if mc.consider_move(e1, e2, u64::MAX, true) {
            current = e2;
        }
        mc.finish_move(e1, current);
    }
    assert!(mc.bins.min <= -1);
    assert_eq!(mc.bins.min, -2);
    assert_eq!(mc.bins.num_e, 3);
    assert_eq!(mc.bins.histogram, vec![1, 3, 1]);
    assert_eq!(mc.moves, 4);
    assert_eq!(mc.accepted_moves, 4);
    assert_eq!(mc.bins.num_translation_attempts, vec![4]);
    assert_eq!(mc.bins.num_states, 3);
    assert_eq!(mc.bins.t_last, 4);
}

#[test]
fn temperature_from_two_occupied_bins() {
    let mut b = two_bin_grid();
    b.lnw = vec![2, 6];
    assert!(b.temperature_in_range());
    assert_eq!(b.temperature(State::new(3, 0)), Some(Ratio { num: 2, den: 4 }));
    assert_eq!(b.temperature(State::new(1, 0)), Some(Ratio { num: 2, den: 4 }));
}

#[test]
fn temperature_averages_consistent_bounds() {
    let mut b = Bins::new(1, 2, 1);
    assert!(b.prepare_for_state(State::new(5, 0)));
    // centres 1, 3, 5
    b.lnw = vec![2, 6, 8];
    // lower 2/4, upper (3-5)/(6-8) = 2/2: mean (2*2 + 2*4) / (2*4*2)
    assert_eq!(b.temperature(State::new(3, 0)), Some(Ratio { num: 12, den: 16 }));
}

#[test]
fn temperature_without_candidates() {
    let b = two_bin_grid();
    assert_eq!(b.temperature(State::new(1, 0)), None);
}

#[test]
fn engine_index_helpers() {
    let mut mc = EnergyNumberMC::new(MethodParams::WL, State::new(1, 0), 2, 1, None);
    mc.prepare_for_state(State::new(3, 1));
    assert_eq!(mc.state_to_index(State::new(3, 1)), 3);
    assert_eq!(mc.index_to_state(2), State::new(3, 0));
    mc.bins.lnw = vec![2, 0, 6, 0];
    assert_eq!(mc.temperature(State::new(3, 0)), Some(Ratio { num: 2, den: 4 }));
}

#[test]
fn change_of_count_follows_the_coin() {
    let mc = EnergyNumberMC::new(MethodParams::Samc { t0: 1 }, State::new(0, 0), 2, 1, Some(2));
    assert_eq!(mc.pick_change(4, 1), Some(Change::Add));
    assert_eq!(mc.pick_change(4, 2), None);
    assert_eq!(mc.pick_change(7, 1), Some(Change::Remove));
    assert_eq!(mc.pick_change(7, 0), None);
    let open = EnergyNumberMC::new(MethodParams::Samc { t0: 1 }, State::new(0, 0), 2, 1, None);
    assert_eq!(open.pick_change(0, usize::MAX - 1), Some(Change::Add));
}

#[test]
fn first_cell_with_enough_round_trips() {
    let mut b = two_bin_grid();
    b.round_trips = vec![3, 12];
    assert_eq!(b.first_with_round_trips(1), Some(0));
    assert_eq!(b.first_with_round_trips(10), Some(1));
    assert_eq!(b.first_with_round_trips(100), None);
}

#[test]
fn last_occupied_cell_with_auxiliary_count() {
    let start = State::new(1, 0);
    let mut mc = EnergyNumberMC::new(MethodParams::WL, start, 2, 1, None);
    assert_eq!(mc.last_occupied_with(1), Some(0));
    assert!(mc.prepare_for_state(State::new(3, 0)));
    assert_eq!(mc.last_occupied_with(0), None);
    let samc = EnergyNumberMC::new(MethodParams::Samc { t0: 1 }, start, 2, 1, None);
    assert_eq!(samc.last_occupied_with(1), None);
}

#[test]
fn random_change_respects_the_limits() {
    let mut rng = rand::rngs::StdRng::seed_from_u64(0);
    let stuck = EnergyNumberMC::new(MethodParams::Samc { t0: 1 }, State::new(0, 0), 2, 1, Some(0));
    let free = EnergyNumberMC::new(MethodParams::Samc { t0: 1 }, State::new(0, 0), 2, 1, None);
    let mut adds = 0;
    let mut removes = 0;
    for _ in 0..64 {
        assert_eq!(stuck.pick_random_change(&mut rng, 0), None);
        match free.pick_random_change(&mut rng, 5) {
            Some(Change::Add) => adds += 1,
            Some(Change::Remove) => removes += 1,
            None => panic!("a change is always possible here"),
        }
    }
    assert!(adds > 0 && removes > 0);
}

#[test]
fn grow_remaps_the_max_entropy_cell() {
    let mut b = Bins::new(1, 2, 1);
    b.lnw = vec![5];
    b.record_visit(0, 0);
    assert_eq!(b.max_s_index, 0);
    let before = b.index_to_state(b.max_s_index);
    assert!(b.prepare_for_state(State::new(-1, 1)));
    // the grid now starts one bin lower and holds two counts
    assert_eq!(b.max_s_index, 2);
    assert_eq!(b.index_to_state(b.max_s_index), before);
    assert_eq!(b.lnw[b.max_s_index], 5);
}

#[test]
fn constructor_starts_from_one_cell() {
    let mc = EnergyNumberMC::new(MethodParams::WL, State::new(10, 0), 4, 9, None);
    assert_eq!(mc.bins.min, 8);
    assert_eq!(mc.bins.histogram, vec![1]);
    assert_eq!(mc.bins.lnw, vec![0]);
    assert_eq!(mc.bins.round_trips, vec![1]);
    assert_eq!(mc.bins.translation_scale, vec![9]);
    assert_eq!(mc.bins.num_states, 1);
    assert_eq!(mc.bins.t_last, 1);
    let grown = EnergyNumberMC::new(MethodParams::Samc { t0: 5 }, State::new(10, 2), 4, 9, None);
    assert_eq!(grown.bins.histogram, vec![1, 0, 0]);
    assert_eq!(grown.bins.translation_scale, vec![9, 9, 9]);
    assert_eq!(grown.moves, 0);
}

#[test]
fn wang_landau_gamma_stays_at_least_one_unit() {
    let start = State::new(1, 0);
    let mut mc = EnergyNumberMC::new(MethodParams::WL, start, 2, 1, None);
    assert!(mc.prepare_for_state(State::new(3, 0)));
    // each visit to the only occupied cell is flat: gamma halves each time
    for _ in 0..40 {
        mc.begin_move();
        mc.finish_move(start, start);
    }
    assert_eq!(mc.gamma(), 1);
    assert_eq!(wl_parts(&mc).4, vec![0, 0]);
}

#[test]
fn wang_landau_level_takes_the_least_non_zero_count() {
    let start = State::new(1, 0);
    let mut mc = EnergyNumberMC::new(MethodParams::WL, start, 2, 1, None);
    assert!(mc.prepare_for_state(State::new(3, 0)));
    mc.bins.histogram = vec![5, 5];
    mc.bins.num_states = 2;
    let mut aux = mc.bins.clone();
    aux.histogram = vec![0, 0];
    mc.method = Method::WL { gamma: 8, lowest_hist: 0, highest_hist: 0, total_hist: 0, bins: aux };
    mc.begin_move();
    mc.finish_move(start, start);
    assert_eq!(wl_parts(&mc), (4, 0, 1, 0, vec![0, 0]));
}

#[test]
fn round_trip_counted_at_max_entropy_cell_from_itself() {
    let mut b = two_bin_grid();
    b.lnw = vec![10, 5];
    b.record_visit(0, 0);
    b.record_visit(1, 0);
    assert_eq!(b.have_visited_since_maxentropy, vec![false, false]);
    assert_eq!(b.round_trips[0], 1);
    b.record_visit(0, 0);
    assert_eq!(b.have_visited_since_maxentropy, vec![true, false]);
    assert_eq!(b.round_trips[0], 2);
}
