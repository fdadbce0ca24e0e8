//! The two players of the game and their fixed enumeration order.

use vstd::prelude::*;

verus! {

/// One of the two players. `First` starts at the bottom rows of the field,
/// `Second` at the top rows.
#[derive(Debug, Clone, Copy, PartialEq, Eq, Hash, Structural)]
pub enum Actor {
    First,
    Second,
}

impl Actor {
    /// The other player.
    pub open spec fn opponent_spec(self) -> Actor {
        match self {
            Actor::First => Actor::Second,
            Actor::Second => Actor::First,
        }
    }

    /// Returns the other player.
    pub fn opponent(self) -> (r: Actor)
        ensures
            r == self.opponent_spec(),
    {
        match self {
            Actor::First => Actor::Second,
            Actor::Second => Actor::First,
        }
    }
}

/// Both players, in the fixed order used wherever the rules enumerate actors.
pub fn actors() -> (r: [Actor; 2])
    ensures
        r@ == seq![Actor::First, Actor::Second],
{
    let r = [Actor::First, Actor::Second];
    proof {
        assert(r@ =~= seq![Actor::First, Actor::Second]);
    }
    r
}

} // verus!
