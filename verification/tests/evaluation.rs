use geister::{
    available_initial_positions, evaluate_payoff_for_exact_state, iterate_possible_states, Actor,
    Geister, GeisterEvaluator, GeisterState, InitialPlacement, OwnedGeister, TableIndex,
};

fn cells(list: &[(usize, usize)]) -> Vec<TableIndex> {
    list.iter().map(|&(x, y)| TableIndex::new(x, y)).collect()
}

fn standard_placement() -> InitialPlacement {
    InitialPlacement {
        holy_first: cells(&[(1, 4), (2, 4), (3, 4), (4, 4)]),
        evil_first: cells(&[(1, 5), (2, 5), (3, 5), (4, 5)]),
        holy_second: cells(&[(1, 0), (2, 0), (3, 0), (4, 0)]),
        evil_second: cells(&[(1, 1), (2, 1), (3, 1), (4, 1)]),
    }
}

#[test]
fn exact_payoff_on_terminal_states() {
    let mut state = GeisterState::create_initial_state(standard_placement());
    state.actor_of_cleared_geister = Some(Actor::First);
    assert_eq!(evaluate_payoff_for_exact_state(Actor::First, &state), 100);
    assert_eq!(evaluate_payoff_for_exact_state(Actor::Second, &state), -100);
}

#[test]
fn exact_payoff_formula_fresh_game() {
    let state = GeisterState::create_initial_state(standard_placement());
    // For the first actor: no captures yet; its closest good piece to the
    // exit (0, 0) is (1, 4), distance 5, added with weight 10; the
    // opponent's closest good piece to that same exit is (1, 0), distance 1,
    // subtracted.
    assert_eq!(evaluate_payoff_for_exact_state(Actor::First, &state), 50 - 1);
    // For the second actor: exit (5, 5); own closest good piece (4, 0),
    // distance 6; opponent's closest good piece (4, 4), distance 2.
    assert_eq!(evaluate_payoff_for_exact_state(Actor::Second, &state), 60 - 2);
}

#[test]
fn exact_payoff_counts_captures() {
    let mut state = GeisterState::create_initial_state(standard_placement());
    // one of the first actor's evil pieces is captured
    state.kill_geister_at(TableIndex::new(1, 5));
    // own evil loss weighs +4 for the first actor
    assert_eq!(evaluate_payoff_for_exact_state(Actor::First, &state), 4 + 50 - 1);
    // opposing evil loss weighs -1 for the second actor
    assert_eq!(evaluate_payoff_for_exact_state(Actor::Second, &state), -1 + 60 - 2);
    // one of the second actor's good pieces is captured as well
    state.kill_geister_at(TableIndex::new(1, 0));
    // opposing good loss weighs +5; the opponent's closest good piece to
    // (0, 0) is now (2, 0), distance 2
    assert_eq!(
        evaluate_payoff_for_exact_state(Actor::First, &state),
        4 + 5 + 50 - 2
    );
    // own good loss weighs -1 for the second actor
    assert_eq!(
        evaluate_payoff_for_exact_state(Actor::Second, &state),
        -1 - 1 + 60 - 2
    );
}

#[test]
fn possible_worlds_count_and_multiplicity() {
    let state = GeisterState::create_initial_state(standard_placement());
    // all eight opposing pieces are unrevealed: C(8, 4) assignments, each
    // standing for 4! * 4! permutations
    let worlds = iterate_possible_states(Actor::First, &state);
    assert_eq!(worlds.len(), 70);
    assert!(worlds.iter().all(|(_, count)| *count == 576));
}

#[test]
fn possible_worlds_shrink_with_revealed_kinds() {
    let mut state = GeisterState::create_initial_state(standard_placement());
    // one good piece of the second actor is captured and thereby revealed
    state.kill_geister_at(TableIndex::new(1, 0));
    // seven unrevealed pieces, three good kinds left: C(7, 3) assignments,
    // each standing for 3! * 4! permutations
    let worlds = iterate_possible_states(Actor::First, &state);
    assert_eq!(worlds.len(), 35);
    assert!(worlds.iter().all(|(_, count)| *count == 144));
}

#[test]
fn possible_worlds_keep_everything_but_hidden_kinds() {
    let state = GeisterState::create_initial_state(standard_placement());
    let worlds = iterate_possible_states(Actor::First, &state);
    for (world, _) in worlds.iter() {
        // counters and marker carry over
        assert_eq!(world.killed_holy_first, state.killed_holy_first);
        assert_eq!(world.killed_evil_first, state.killed_evil_first);
        assert_eq!(world.killed_holy_second, state.killed_holy_second);
        assert_eq!(world.killed_evil_second, state.killed_evil_second);
        assert_eq!(world.actor_of_cleared_geister, state.actor_of_cleared_geister);
        // the viewpoint actor's own pieces are untouched
        for j in 0..36 {
            let here = state.lattices[j];
            match here {
                Some(g) if g.owner == Actor::First => assert_eq!(world.lattices[j], here),
                None => assert_eq!(world.lattices[j], None),
                Some(_) => {
                    // an opposing piece keeps its owner, whatever kind the
                    // world assigns
                    assert_eq!(world.lattices[j].map(|g| g.owner), Some(Actor::Second));
                },
            }
        }
        // exactly four of the opponent's pieces are good in every world
        let holy = world
            .iterate_owned_geister_positions(OwnedGeister::new(Geister::Holy, Actor::Second))
            .len();
        assert_eq!(holy, 4);
    }
}

#[test]
fn evaluate_payoff_on_terminal_state() {
    let mut state = GeisterState::create_initial_state(standard_placement());
    state.actor_of_cleared_geister = Some(Actor::Second);
    assert_eq!(GeisterEvaluator::evaluate_payoff_for(Actor::Second, &state), 100);
    assert_eq!(GeisterEvaluator::evaluate_payoff_for(Actor::First, &state), -100);
}

#[test]
fn evaluate_payoff_averages_over_worlds() {
    let state = GeisterState::create_initial_state(standard_placement());
    // From the first actor's viewpoint every world scores 50 for its own
    // positional term; the opposing good pieces land on four of the eight
    // cells whose distances to (0, 0) are 1,2,3,4 (back row) and 2,3,4,5.
    // Over the 70 assignments the closest-distance term sums to 110, so the
    // mean payoff is (70 * 50 - 110) / 70, truncated to 48.
    assert_eq!(GeisterEvaluator::evaluate_payoff_for(Actor::First, &state), 48);
}

#[test]
fn evaluate_payoff_with_two_hidden_pieces() {
    let mut state = GeisterState::create_initial_state(standard_placement());
    // capture six of the second actor's pieces: three good, three evil
    state.kill_geister_at(TableIndex::new(1, 0));
    state.kill_geister_at(TableIndex::new(2, 0));
    state.kill_geister_at(TableIndex::new(3, 0));
    state.kill_geister_at(TableIndex::new(1, 1));
    state.kill_geister_at(TableIndex::new(2, 1));
    state.kill_geister_at(TableIndex::new(3, 1));
    // one good and one evil kind left for the pieces on (4, 0) and (4, 1):
    // two worlds, each standing for 1! * 1! permutations
    let worlds = iterate_possible_states(Actor::First, &state);
    assert_eq!(worlds.len(), 2);
    assert!(worlds.iter().all(|(_, count)| *count == 1));
    // capture part for the first actor: 3 * 5 - 3 = 12; own term 50; the
    // opposing good piece sits on (4, 0) (distance 4) in one world and on
    // (4, 1) (distance 5) in the other: (58 + 57) / 2, truncated to 57
    assert_eq!(GeisterEvaluator::evaluate_payoff_for(Actor::First, &state), 57);
}

#[test]
fn duplicate_is_equal_and_independent() {
    let state = GeisterState::create_initial_state(standard_placement());
    let mut copy = state.duplicate();
    assert_eq!(state, copy);
    copy.kill_geister_at(TableIndex::new(1, 0));
    assert_ne!(state, copy);
    assert_eq!(state.killed_geister_count(OwnedGeister::new(Geister::Holy, Actor::Second)), 0);
}

#[test]
fn initial_area_has_eight_cells_per_actor() {
    assert_eq!(
        available_initial_positions(Actor::First),
        cells(&[(1, 4), (1, 5), (2, 4), (2, 5), (3, 4), (3, 5), (4, 4), (4, 5)])
    );
    assert_eq!(
        available_initial_positions(Actor::Second),
        cells(&[(1, 0), (1, 1), (2, 0), (2, 1), (3, 0), (3, 1), (4, 0), (4, 1)])
    );
}
