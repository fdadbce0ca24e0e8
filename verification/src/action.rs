//! The vocabulary of moves: four unit-step directions and the exit move, and
//! the action value an actor plays.

use vstd::prelude::*;
use crate::actor::Actor;
use crate::state::TableIndex;

verus! {

/// A movement of a piece on the field.
#[derive(Debug, Clone, Copy, PartialEq, Eq, Hash, Structural)]
pub enum GeisterMovement {
    /// Move by the given offset.
    Direction { dx: isize, dy: isize },
    /// Leave the field through the owner's exit cell.
    Clear,
}

/// An actor's action: which piece to touch, how to move it, and who acts.
#[derive(Debug, Clone, Copy, PartialEq, Eq, Hash, Structural)]
pub struct GeisterAction {
    /// The cell of the piece the action moves.
    pub target_geister_position: TableIndex,
    pub geister_movement: GeisterMovement,
    pub actor: Actor,
}

impl GeisterAction {
    pub fn new(
        target_geister_position: TableIndex,
        geister_movement: GeisterMovement,
        actor: Actor,
    ) -> (r: Self)
        ensures
            r == (GeisterAction { target_geister_position, geister_movement, actor }),
    {
        Self { target_geister_position, geister_movement, actor }
    }

    /// The actor playing this action.
    pub fn actor(&self) -> (r: Actor)
        ensures
            r == self.actor,
    {
        self.actor
    }
}

/// The closed, immutable table of candidate movements the rules consult: one
/// unit step right, left, down, up, and the exit move, in this order.
pub open spec fn movement_candidates() -> Seq<GeisterMovement> {
    seq![
        GeisterMovement::Direction { dx: 1isize, dy: 0isize },
        GeisterMovement::Direction { dx: -1isize, dy: 0isize },
        GeisterMovement::Direction { dx: 0isize, dy: 1isize },
        GeisterMovement::Direction { dx: 0isize, dy: -1isize },
        GeisterMovement::Clear,
    ]
}

/// Whether a movement stands in the candidate table.
pub open spec fn is_movement_candidate(m: GeisterMovement) -> bool {
    movement_candidates().contains(m)
}

/// The candidate movements as a value, in the table's order.
pub fn available_movements() -> (r: [GeisterMovement; 5])
    ensures
        r@ == movement_candidates(),
{
    let r = [
        GeisterMovement::Direction { dx: 1, dy: 0 },
        GeisterMovement::Direction { dx: -1, dy: 0 },
        GeisterMovement::Direction { dx: 0, dy: 1 },
        GeisterMovement::Direction { dx: 0, dy: -1 },
        GeisterMovement::Clear,
    ];
    proof {
        assert(r@ =~= movement_candidates());
    }
    r
}

} // verus!
