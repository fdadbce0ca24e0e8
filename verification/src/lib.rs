//! Rules-and-evaluation core of the two-player hidden-information board game
//! Geister: an immutable game-state model, a pure rule engine (legal-action
//! enumeration, state transition, winner determination) and a heuristic
//! evaluator with possible-worlds averaging over hidden piece kinds.

pub mod actor;
pub mod state;
pub mod action;
pub mod rule;
pub mod evaluation;

pub use actor::{actors, Actor};
pub use state::{
    available_initial_positions, geisters, Geister, GeisterState, InitialPlacement, OwnedGeister,
    StateModel, TableIndex, FIELD_HEIGHT, FIELD_WIDTH, INITIAL_GEISTER_COUNT,
};
pub use action::{available_movements, GeisterAction, GeisterMovement};
pub use rule::{clearable_position_of, is_available_action, GeisterRule};
pub use evaluation::{
    evaluate_payoff_for_exact_state, iterate_possible_states, GeisterEvaluator, GeisterPayoff,
};

