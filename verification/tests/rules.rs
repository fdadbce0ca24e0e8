use geister::{
    actors, available_movements, clearable_position_of, geisters, is_available_action, Actor,
    Geister, GeisterAction, GeisterMovement, GeisterRule, GeisterState, InitialPlacement,
    OwnedGeister, TableIndex, INITIAL_GEISTER_COUNT,
};

fn cells(list: &[(usize, usize)]) -> Vec<TableIndex> {
    list.iter().map(|&(x, y)| TableIndex::new(x, y)).collect()
}

/// A regular opening placement: each actor's pieces on its two back rows.
fn standard_placement() -> InitialPlacement {
    InitialPlacement {
        holy_first: cells(&[(1, 4), (2, 4), (3, 4), (4, 4)]),
        evil_first: cells(&[(1, 5), (2, 5), (3, 5), (4, 5)]),
        holy_second: cells(&[(1, 0), (2, 0), (3, 0), (4, 0)]),
        evil_second: cells(&[(1, 1), (2, 1), (3, 1), (4, 1)]),
    }
}

fn cell_of(state: &GeisterState, x: usize, y: usize) -> Option<OwnedGeister> {
    state.lattices[y * 6 + x]
}

fn direction(dx: isize, dy: isize) -> GeisterMovement {
    GeisterMovement::Direction { dx, dy }
}

#[test]
fn initial_state_places_pieces() {
    let state = GeisterState::create_initial_state(standard_placement());
    assert_eq!(
        cell_of(&state, 1, 4),
        Some(OwnedGeister::new(Geister::Holy, Actor::First))
    );
    assert_eq!(
        cell_of(&state, 4, 5),
        Some(OwnedGeister::new(Geister::Evil, Actor::First))
    );
    assert_eq!(
        cell_of(&state, 2, 0),
        Some(OwnedGeister::new(Geister::Holy, Actor::Second))
    );
    assert_eq!(
        cell_of(&state, 3, 1),
        Some(OwnedGeister::new(Geister::Evil, Actor::Second))
    );
    assert_eq!(cell_of(&state, 0, 0), None);
    assert_eq!(cell_of(&state, 5, 5), None);
    assert_eq!(cell_of(&state, 2, 3), None);
    assert_eq!(state.actor_of_cleared_geister, None);
    for &g in geisters().iter() {
        for &a in actors().iter() {
            assert_eq!(state.killed_geister_count(OwnedGeister::new(g, a)), 0);
        }
    }
    assert_eq!(GeisterRule::winner_of(&state), None);
    assert!(!GeisterRule::is_game_over(&state));
}

#[test]
fn scenario_exit_win() {
    let mut placement = standard_placement();
    placement.holy_first = cells(&[(0, 0), (2, 4), (3, 4), (4, 4)]);
    let state = GeisterState::create_initial_state(placement);
    let exit = GeisterAction::new(TableIndex::new(0, 0), GeisterMovement::Clear, Actor::First);
    let actions = GeisterRule::iterate_available_actions(&state, Actor::First);
    assert!(actions.iter().any(|a| *a == exit));
    assert!(is_available_action(&state, &exit));
    let after = GeisterRule::translate_state(&state, &exit);
    assert_eq!(after.actor_of_cleared_geister, Some(Actor::First));
    assert_eq!(cell_of(&after, 0, 0), None);
    assert_eq!(GeisterRule::winner_of(&after), Some(Actor::First));
    assert!(GeisterRule::is_game_over(&after));
}

#[test]
fn scenario_evil_capture_paradox_win() {
    // ActorB (Second) captures all four of ActorA's evil pieces; the
    // authentic rule makes ActorA the winner.
    let placement = InitialPlacement {
        holy_first: cells(&[(1, 4), (2, 4), (3, 4), (4, 4)]),
        evil_first: cells(&[(1, 1), (2, 1), (3, 1), (4, 1)]),
        holy_second: cells(&[(1, 0), (2, 0), (3, 0), (4, 0)]),
        evil_second: cells(&[(1, 5), (2, 5), (3, 5), (4, 5)]),
    };
    let mut state = GeisterState::create_initial_state(placement);
    for x in 1..=4usize {
        assert_eq!(GeisterRule::winner_of(&state), None);
        let capture = GeisterAction::new(TableIndex::new(x, 0), direction(0, 1), Actor::Second);
        state = GeisterRule::translate_state(&state, &capture);
    }
    assert_eq!(
        state.killed_geister_count(OwnedGeister::new(Geister::Evil, Actor::First)),
        INITIAL_GEISTER_COUNT
    );
    assert_eq!(GeisterRule::winner_of(&state), Some(Actor::First));
}

#[test]
fn scenario_good_capture_standard_win() {
    // ActorB (Second) captures all four of ActorA's good pieces and wins.
    let placement = InitialPlacement {
        holy_first: cells(&[(1, 1), (2, 1), (3, 1), (4, 1)]),
        evil_first: cells(&[(1, 4), (2, 4), (3, 4), (4, 4)]),
        holy_second: cells(&[(1, 0), (2, 0), (3, 0), (4, 0)]),
        evil_second: cells(&[(1, 5), (2, 5), (3, 5), (4, 5)]),
    };
    let mut state = GeisterState::create_initial_state(placement);
    for x in 1..=4usize {
        assert_eq!(GeisterRule::winner_of(&state), None);
        let capture = GeisterAction::new(TableIndex::new(x, 0), direction(0, 1), Actor::Second);
        state = GeisterRule::translate_state(&state, &capture);
    }
    assert_eq!(
        state.killed_geister_count(OwnedGeister::new(Geister::Holy, Actor::First)),
        INITIAL_GEISTER_COUNT
    );
    assert_eq!(GeisterRule::winner_of(&state), Some(Actor::Second));
}

#[test]
fn scenario_same_owner_overlap_excluded() {
    // (1, 4) and (1, 5) both hold pieces of the first actor: moving one onto
    // the other never appears among the available actions.
    let state = GeisterState::create_initial_state(standard_placement());
    let overlap = GeisterAction::new(TableIndex::new(1, 4), direction(0, 1), Actor::First);
    assert!(!is_available_action(&state, &overlap));
    let actions = GeisterRule::iterate_available_actions(&state, Actor::First);
    assert!(!actions.iter().any(|a| *a == overlap));
    for a in actions.iter() {
        if let GeisterMovement::Direction { dx, dy } = a.geister_movement {
            let dest_x = (a.target_geister_position.x as isize + dx) as usize;
            let dest_y = (a.target_geister_position.y as isize + dy) as usize;
            let dest = cell_of(&state, dest_x, dest_y);
            assert_ne!(dest.map(|g| g.owner), Some(Actor::First));
        }
    }
}

#[test]
fn translate_is_deterministic() {
    let state = GeisterState::create_initial_state(standard_placement());
    let action = GeisterAction::new(TableIndex::new(2, 4), direction(0, -1), Actor::First);
    let once = GeisterRule::translate_state(&state, &action);
    let twice = GeisterRule::translate_state(&state, &action);
    assert_eq!(once, twice);
    // the input state is left untouched
    assert_eq!(state, GeisterState::create_initial_state(standard_placement()));
}

#[test]
fn conservation_of_totals() {
    let state = GeisterState::create_initial_state(standard_placement());
    let action = GeisterAction::new(TableIndex::new(2, 4), direction(0, -1), Actor::First);
    let after = GeisterRule::translate_state(&state, &action);
    for &g in geisters().iter() {
        for &a in actors().iter() {
            let og = OwnedGeister::new(g, a);
            let on_board_before = state.iterate_owned_geister_positions(og).len();
            let on_board_after = after.iterate_owned_geister_positions(og).len();
            assert_eq!(
                on_board_before + state.killed_geister_count(og),
                on_board_after + after.killed_geister_count(og)
            );
            assert!(on_board_after + after.killed_geister_count(og) <= INITIAL_GEISTER_COUNT);
        }
    }
    // move to an empty cell: the piece relocated, nothing was captured
    assert_eq!(cell_of(&after, 2, 4), None);
    assert_eq!(
        cell_of(&after, 2, 3),
        Some(OwnedGeister::new(Geister::Holy, Actor::First))
    );
}

#[test]
fn capture_increments_counter_and_moves() {
    let placement = InitialPlacement {
        holy_first: cells(&[(1, 4), (2, 4), (3, 4), (4, 4)]),
        evil_first: cells(&[(1, 5), (2, 5), (3, 5), (4, 5)]),
        holy_second: cells(&[(1, 3), (2, 0), (3, 0), (4, 0)]),
        evil_second: cells(&[(1, 1), (2, 1), (3, 1), (4, 1)]),
    };
    let state = GeisterState::create_initial_state(placement);
    // the first actor's good piece on (1, 4) captures the second actor's
    // good piece on (1, 3)
    let capture = GeisterAction::new(TableIndex::new(1, 4), direction(0, -1), Actor::First);
    let after = GeisterRule::translate_state(&state, &capture);
    assert_eq!(
        after.killed_geister_count(OwnedGeister::new(Geister::Holy, Actor::Second)),
        1
    );
    assert_eq!(
        cell_of(&after, 1, 3),
        Some(OwnedGeister::new(Geister::Holy, Actor::First))
    );
    assert_eq!(cell_of(&after, 1, 4), None);
}

#[test]
fn winner_priority_is_exit_marker_first() {
    let mut state = GeisterState::create_initial_state(standard_placement());
    for x in 1..=4usize {
        state.kill_geister_at(TableIndex::new(x, 5));
    }
    assert_eq!(
        state.killed_geister_count(OwnedGeister::new(Geister::Evil, Actor::First)),
        4
    );
    assert_eq!(GeisterRule::winner_of(&state), Some(Actor::First));
    state.actor_of_cleared_geister = Some(Actor::Second);
    assert_eq!(GeisterRule::winner_of(&state), Some(Actor::Second));
}

#[test]
fn winner_is_stable_on_repeated_queries() {
    let mut state = GeisterState::create_initial_state(standard_placement());
    for x in 1..=4usize {
        state.kill_geister_at(TableIndex::new(x, 0));
    }
    let first_query = GeisterRule::winner_of(&state);
    assert_eq!(first_query, Some(Actor::First));
    for _ in 0..5 {
        assert_eq!(GeisterRule::winner_of(&state), first_query);
    }
}

#[test]
fn liveness_actions_available_for_both_actors() {
    let state = GeisterState::create_initial_state(standard_placement());
    for &a in actors().iter() {
        let actions = GeisterRule::iterate_available_actions(&state, a);
        assert!(!actions.is_empty());
    }
}

#[test]
fn liveness_lone_cornered_piece_can_capture() {
    // a single piece of the second actor in the corner, walled in by the
    // opponent, still has capture moves
    let placement = InitialPlacement {
        holy_first: cells(&[(1, 0), (0, 1), (2, 4), (3, 4)]),
        evil_first: cells(&[(1, 5), (2, 5), (3, 5), (4, 5)]),
        holy_second: cells(&[(0, 0), (2, 0), (3, 0), (4, 0)]),
        evil_second: cells(&[(1, 1), (2, 1), (3, 1), (4, 1)]),
    };
    let state = GeisterState::create_initial_state(placement);
    let actions = GeisterRule::iterate_available_actions(&state, Actor::Second);
    let capture_right = GeisterAction::new(TableIndex::new(0, 0), direction(1, 0), Actor::Second);
    assert!(actions.iter().any(|a| *a == capture_right));
}

#[test]
fn exit_not_available_off_goal_or_for_evil() {
    let mut placement = standard_placement();
    placement.evil_first = cells(&[(0, 0), (2, 5), (3, 5), (4, 5)]);
    let state = GeisterState::create_initial_state(placement);
    // an evil piece on the exit cell may not exit
    let evil_exit = GeisterAction::new(TableIndex::new(0, 0), GeisterMovement::Clear, Actor::First);
    assert!(!is_available_action(&state, &evil_exit));
    // a good piece away from the exit cell may not exit
    let off_goal = GeisterAction::new(TableIndex::new(1, 4), GeisterMovement::Clear, Actor::First);
    assert!(!is_available_action(&state, &off_goal));
    // the opponent may not exit through this corner
    let wrong_owner = GeisterAction::new(TableIndex::new(0, 0), GeisterMovement::Clear, Actor::Second);
    assert!(!is_available_action(&state, &wrong_owner));
}

#[test]
fn moves_off_the_board_are_unavailable() {
    let mut placement = standard_placement();
    placement.holy_first = cells(&[(0, 5), (2, 4), (3, 4), (4, 4)]);
    let state = GeisterState::create_initial_state(placement);
    assert!(!is_available_action(
        &state,
        &GeisterAction::new(TableIndex::new(0, 5), direction(-1, 0), Actor::First)
    ));
    assert!(!is_available_action(
        &state,
        &GeisterAction::new(TableIndex::new(0, 5), direction(0, 1), Actor::First)
    ));
    assert!(is_available_action(
        &state,
        &GeisterAction::new(TableIndex::new(0, 5), direction(0, -1), Actor::First)
    ));
}

#[test]
fn kill_geister_at_empty_cell_changes_nothing() {
    let state = GeisterState::create_initial_state(standard_placement());
    let mut touched = state.clone();
    touched.kill_geister_at(TableIndex::new(0, 3));
    assert_eq!(state, touched);
}

#[test]
fn positions_iterators_row_major_order() {
    let state = GeisterState::create_initial_state(standard_placement());
    let second_positions = state.iterate_geister_positions_of(Actor::Second);
    assert_eq!(
        second_positions,
        cells(&[(1, 0), (2, 0), (3, 0), (4, 0), (1, 1), (2, 1), (3, 1), (4, 1)])
    );
    let holy_first = state.iterate_owned_geister_positions(OwnedGeister::new(Geister::Holy, Actor::First));
    assert_eq!(holy_first, cells(&[(1, 4), (2, 4), (3, 4), (4, 4)]));
}

#[test]
fn clearable_positions_are_the_opposite_corners() {
    assert_eq!(clearable_position_of(Actor::First), TableIndex::new(0, 0));
    assert_eq!(clearable_position_of(Actor::Second), TableIndex::new(5, 5));
}

#[test]
fn movement_table_is_fixed() {
    let movements = available_movements();
    assert_eq!(
        movements,
        [
            direction(1, 0),
            direction(-1, 0),
            direction(0, 1),
            direction(0, -1),
            GeisterMovement::Clear,
        ]
    );
}

#[test]
fn actor_enumeration_and_opponents() {
    assert_eq!(actors(), [Actor::First, Actor::Second]);
    assert_eq!(Actor::First.opponent(), Actor::Second);
    assert_eq!(Actor::Second.opponent(), Actor::First);
    assert_eq!(geisters(), [Geister::Evil, Geister::Holy]);
}

#[test]
fn action_accessors() {
    let a = GeisterAction::new(TableIndex::new(2, 3), direction(1, 0), Actor::Second);
    assert_eq!(a.actor(), Actor::Second);
    assert_eq!(a.target_geister_position, TableIndex::new(2, 3));
    assert_eq!(a.geister_movement, direction(1, 0));
}
