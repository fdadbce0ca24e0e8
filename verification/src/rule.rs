//! The pure rule engine: legal-action enumeration, state transition and
//! winner determination, with the laws that hold of them.

use vstd::prelude::*;
use crate::actor::Actor;
use crate::action::{is_movement_candidate, movement_candidates, available_movements, GeisterAction,
    GeisterMovement};
use crate::state::{cell_index, cell_owned_by, in_field, index_to_pos, owned_geister, bump_killed,
    flat_index, lemma_cell_index_injective, lemma_count_of_update_from,
    lemma_index_to_pos_in_field, Geister, GeisterState, OwnedGeister, StateModel, TableIndex,
    FIELD_HEIGHT, FIELD_WIDTH, INITIAL_GEISTER_COUNT};

verus! {

/// The exit cell of an actor: the corner on the diagonal opposite its two
/// starting rows.
pub open spec fn clearable_position_spec(actor: Actor) -> TableIndex {
    match actor {
        Actor::First => TableIndex { x: 0, y: 0 },
        Actor::Second => TableIndex {
            x: (FIELD_WIDTH - 1) as usize,
            y: (FIELD_HEIGHT - 1) as usize,
        },
    }
}

/// Returns the cell through which the given actor's good pieces may exit.
pub fn clearable_position_of(actor: Actor) -> (r: TableIndex)
    ensures
        r == clearable_position_spec(actor),
        in_field(r),
{
    match actor {
        Actor::First => TableIndex::new(0, 0),
        Actor::Second => TableIndex::new(FIELD_WIDTH - 1, FIELD_HEIGHT - 1),
    }
}

/// The cell reached from `p` by the offset (dx, dy).
pub open spec fn direction_dest(p: TableIndex, dx: int, dy: int) -> TableIndex {
    TableIndex { x: (p.x + dx) as usize, y: (p.y + dy) as usize }
}

/// Whether the offset (dx, dy) leads from `p` to a cell on the field.
pub open spec fn direction_dest_in_field(p: TableIndex, dx: int, dy: int) -> bool {
    &&& 0 <= p.x + dx < FIELD_WIDTH
    &&& 0 <= p.y + dy < FIELD_HEIGHT
}

/// Whether an action is legal in a state: its source cell holds a piece of
/// the acting actor, and either the directional destination lies on the field
/// and is not occupied by the actor's own piece, or the moved piece is a good
/// one standing on the actor's exit cell.
pub open spec fn action_available(m: StateModel, a: GeisterAction) -> bool {
    &&& in_field(a.target_geister_position)
    &&& cell_owned_by(m.cell(a.target_geister_position), a.actor)
    &&& match a.geister_movement {
        GeisterMovement::Direction { dx, dy } => {
            &&& direction_dest_in_field(a.target_geister_position, dx as int, dy as int)
            &&& !cell_owned_by(
                m.cell(direction_dest(a.target_geister_position, dx as int, dy as int)),
                a.actor,
            )
        },
        GeisterMovement::Clear => {
            &&& m.cell(a.target_geister_position) == Some(owned_geister(Geister::Holy, a.actor))
            &&& a.target_geister_position == clearable_position_spec(a.actor)
        },
    }
}

/// Whether an action is the exit move.
pub open spec fn is_exit_action(a: GeisterAction) -> bool {
    a.geister_movement is Clear
}

/// Whether a legal action captures: it is directional and its destination is
/// occupied (necessarily by the opponent).
pub open spec fn is_capture_action(m: StateModel, a: GeisterAction) -> bool {
    match a.geister_movement {
        GeisterMovement::Direction { dx, dy } => m.cell(
            direction_dest(a.target_geister_position, dx as int, dy as int),
        ) is Some,
        GeisterMovement::Clear => false,
    }
}

/// Whether a legal action moves onto an empty cell.
pub open spec fn is_plain_move_action(m: StateModel, a: GeisterAction) -> bool {
    match a.geister_movement {
        GeisterMovement::Direction { dx, dy } => m.cell(
            direction_dest(a.target_geister_position, dx as int, dy as int),
        ) is None,
        GeisterMovement::Clear => false,
    }
}

/// The state a legal action leads to. A directional action first removes the
/// piece on the destination by capture, if one stands there, then relocates
/// the moving piece; the exit move sets the exit marker. In every case the
/// source cell becomes empty.
pub open spec fn translate_spec(m: StateModel, a: GeisterAction) -> StateModel {
    let src = cell_index(a.target_geister_position);
    match a.geister_movement {
        GeisterMovement::Direction { dx, dy } => {
            let dest = cell_index(direction_dest(a.target_geister_position, dx as int, dy as int));
            let mover = m.board[src];
            let bumped = match m.board[dest] {
                Some(victim) => bump_killed(m, victim),
                None => m,
            };
            StateModel { board: m.board.update(dest, mover).update(src, None), ..bumped }
        },
        GeisterMovement::Clear => StateModel {
            board: m.board.update(src, None),
            cleared: Some(a.actor),
            ..m
        },
    }
}

/// The winner of a state, by the fixed priority: the exit marker first; then,
/// for each actor in enumeration order, an actor whose evil pieces were all
/// captured wins, and an actor whose good pieces were all captured loses.
pub open spec fn winner_spec(m: StateModel) -> Option<Actor> {
    if m.cleared is Some {
        m.cleared
    } else if m.killed_evil_first == INITIAL_GEISTER_COUNT {
        Some(Actor::First)
    } else if m.killed_holy_first == INITIAL_GEISTER_COUNT {
        Some(Actor::Second)
    } else if m.killed_evil_second == INITIAL_GEISTER_COUNT {
        Some(Actor::Second)
    } else if m.killed_holy_second == INITIAL_GEISTER_COUNT {
        Some(Actor::First)
    } else {
        None
    }
}

/// The legal actions of `actor` at cell `p`, trying the candidate movements
/// from table position `k` on, in table order.
pub open spec fn actions_at_cell_from(
    m: StateModel,
    actor: Actor,
    p: TableIndex,
    k: int,
) -> Seq<GeisterAction>
    decreases movement_candidates().len() - k,
{
    if k < 0 || k >= movement_candidates().len() {
        Seq::empty()
    } else {
        let a = GeisterAction {
            target_geister_position: p,
            geister_movement: movement_candidates()[k],
            actor,
        };
        (if action_available(m, a) {
            seq![a]
        } else {
            Seq::empty()
        }) + actions_at_cell_from(m, actor, p, k + 1)
    }
}

/// The legal actions of `actor` whose source cell has row-major position `j`
/// or beyond, sources in row-major order, movements in table order.
pub open spec fn available_actions_from(m: StateModel, actor: Actor, j: int) -> Seq<GeisterAction>
    decreases m.board.len() - j,
{
    if j < 0 || j >= m.board.len() {
        Seq::empty()
    } else {
        actions_at_cell_from(m, actor, index_to_pos(j), 0) + available_actions_from(
            m,
            actor,
            j + 1,
        )
    }
}

/// All legal actions of `actor` in a state, in the fixed traversal order.
pub open spec fn available_actions_spec(m: StateModel, actor: Actor) -> Seq<GeisterAction> {
    available_actions_from(m, actor, 0)
}

/// Where a piece ends up under a legal action: on a field cell, or off the
/// field through the exit.
enum GeisterStateAfterAction {
    OnField(TableIndex),
    Clear,
}

/// Resolves an action: `Some` exactly when the action is legal, carrying the
/// destination cell of a directional move or the exit outcome.
fn get_geister_state_after_action(state: &GeisterState, action: &GeisterAction) -> (r: Option<
    GeisterStateAfterAction,
>)
    requires
        state@.board.len() == FIELD_WIDTH * FIELD_HEIGHT,
    ensures
        (r is Some) == action_available(state@, *action),
        action_available(state@, *action) ==> (match action.geister_movement {
            GeisterMovement::Direction { dx, dy } => r == Some(
                GeisterStateAfterAction::OnField(
                    direction_dest(action.target_geister_position, dx as int, dy as int),
                ),
            ),
            GeisterMovement::Clear => r == Some(GeisterStateAfterAction::Clear),
        }),
{
    let p = action.target_geister_position;
    if !(p.x < FIELD_WIDTH && p.y < FIELD_HEIGHT) {
        return None;
    }
    let src = flat_index(p);
    let source_cell = state.lattices[src];
    let owned_ok = match source_cell {
        Some(g) => g.owner == action.actor,
        None => false,
    };
    if !owned_ok {
        return None;
    }
    match action.geister_movement {
        GeisterMovement::Direction { dx, dy } => {
            let pxi = p.x as isize;
            let pyi = p.y as isize;
            let dest_x_ok = dx >= -pxi && dx <= (FIELD_WIDTH as isize - 1) - pxi;
            let dest_y_ok = dy >= -pyi && dy <= (FIELD_HEIGHT as isize - 1) - pyi;
            if dest_x_ok && dest_y_ok {
                let dest = TableIndex::new((pxi + dx) as usize, (pyi + dy) as usize);
                let dest_owned = match state.lattices[flat_index(dest)] {
                    Some(g) => g.owner == action.actor,
                    None => false,
                };
                if !dest_owned {
                    Some(GeisterStateAfterAction::OnField(dest))
                } else {
                    None
                }
            } else {
                None
            }
        },
        GeisterMovement::Clear => {
            match source_cell {
                Some(g) => {
                    let cp = clearable_position_of(action.actor);
                    let is_holy = match g.geister {
                        Geister::Holy => true,
                        Geister::Evil => false,
                    };
                    if is_holy && p == cp {
                        Some(GeisterStateAfterAction::Clear)
                    } else {
                        None
                    }
                },
                None => None,
            }
        },
    }
}

/// Returns whether an action is legal in a state: the same resolution logic
/// that the enumeration uses, for validating externally supplied actions.
pub fn is_available_action(state: &GeisterState, action: &GeisterAction) -> (r: bool)
    requires
        state@.board.len() == FIELD_WIDTH * FIELD_HEIGHT,
    ensures
        r == action_available(state@, *action),
{
    get_geister_state_after_action(state, action).is_some()
}

/// The stateless rule engine: every operation is a pure function of its
/// explicit inputs and returns new values.
pub struct GeisterRule {}

impl GeisterRule {
    /// The winner of the game in the given state, or `None` while the game
    /// goes on. Pure: equal states always give the same answer.
    pub fn winner_of(state: &GeisterState) -> (r: Option<Actor>)
        ensures
            r == winner_spec(state@),
    {
        if let Some(winner) = state.actor_of_cleared_geister {
            return Some(winner);
        }
        if state.killed_geister_count(OwnedGeister::new(Geister::Evil, Actor::First))
            == INITIAL_GEISTER_COUNT {
            return Some(Actor::First);
        }
        if state.killed_geister_count(OwnedGeister::new(Geister::Holy, Actor::First))
            == INITIAL_GEISTER_COUNT {
            return Some(Actor::Second);
        }
        if state.killed_geister_count(OwnedGeister::new(Geister::Evil, Actor::Second))
            == INITIAL_GEISTER_COUNT {
            return Some(Actor::Second);
        }
        if state.killed_geister_count(OwnedGeister::new(Geister::Holy, Actor::Second))
            == INITIAL_GEISTER_COUNT {
            return Some(Actor::First);
        }
        None
    }

    /// Whether the game is over: exactly when a winner is determined.
    pub fn is_game_over(state: &GeisterState) -> (r: bool)
        ensures
            r == (winner_spec(state@) is Some),
    {
        Self::winner_of(state).is_some()
    }

    /// All legal actions of `actor` in `state`, in a fixed traversal order:
    /// source cells row-major, movements in table order. Exactly the actions
    /// `action_available` admits with a candidate movement; see
    /// `lemma_available_actions_characterization` for completeness.
    pub fn iterate_available_actions(state: &GeisterState, actor: Actor) -> (r: Vec<GeisterAction>)
        requires
            state@.board.len() == FIELD_WIDTH * FIELD_HEIGHT,
        ensures
            r@ == available_actions_spec(state@, actor),
            forall|i: int|
                0 <= i < r@.len() ==> action_available(state@, #[trigger] r@[i]) && r@[i].actor
                    == actor && is_movement_candidate(r@[i].geister_movement),
    {
        let movements = available_movements();
        let mut r: Vec<GeisterAction> = Vec::new();
        let mut j: usize = 0;
        while j < state.lattices.len()
            invariant
                state@.board.len() == FIELD_WIDTH * FIELD_HEIGHT,
                j <= state@.board.len(),
                movements@ == movement_candidates(),
                available_actions_from(state@, actor, 0) == r@ + available_actions_from(
                    state@,
                    actor,
                    j as int,
                ),
            decreases state@.board.len() - j,
        {
            let p = TableIndex::new(j % FIELD_WIDTH, j / FIELD_WIDTH);
            proof {
                lemma_index_to_pos_in_field(j as int);
                assert(p == index_to_pos(j as int));
            }
            let mut k: usize = 0;
            while k < 5
                invariant
                    state@.board.len() == FIELD_WIDTH * FIELD_HEIGHT,
                    0 <= (j as int) < state@.board.len(),
                    p == index_to_pos(j as int),
                    k <= 5,
                    movements@ == movement_candidates(),
                    available_actions_from(state@, actor, 0) == r@ + (actions_at_cell_from(
                        state@,
                        actor,
                        p,
                        k as int,
                    ) + available_actions_from(state@, actor, j + 1)),
                decreases 5 - k,
            {
                let candidate = GeisterAction::new(p, movements[k], actor);
                proof {
                    assert(movements@[k as int] == movement_candidates()[k as int]);
                }
                if is_available_action(state, &candidate) {
                    proof {
                        let at_k = actions_at_cell_from(state@, actor, p, k as int);
                        let at_k1 = actions_at_cell_from(state@, actor, p, k + 1);
                        let tail = available_actions_from(state@, actor, j + 1);
                        assert(at_k == seq![candidate] + at_k1);
                        assert(r@.push(candidate) + (at_k1 + tail) =~= r@ + (at_k + tail));
                    }
                    r.push(candidate);
                } else {
                    proof {
                        let at_k = actions_at_cell_from(state@, actor, p, k as int);
                        let at_k1 = actions_at_cell_from(state@, actor, p, k + 1);
                        let tail = available_actions_from(state@, actor, j + 1);
                        assert(at_k == Seq::<GeisterAction>::empty() + at_k1);
                        assert(Seq::<GeisterAction>::empty() + at_k1 =~= at_k1);
                    }
                }
                k = k + 1;
            }
            proof {
                let tail = available_actions_from(state@, actor, j + 1);
                assert(actions_at_cell_from(state@, actor, p, 5) + tail =~= tail);
            }
            j = j + 1;
        }
        proof {
            assert(r@ + available_actions_from(state@, actor, state@.board.len() as int) =~= r@);
            assert forall|i: int| 0 <= i < r@.len() implies action_available(
                state@,
                #[trigger] r@[i],
            ) && r@[i].actor == actor && is_movement_candidate(r@[i].geister_movement) by {
                assert(r@.contains(r@[i]));
                lemma_from_sound(state@, actor, 0, r@[i]);
            }
        }
        r
    }

    /// Applies a legal action to a state and returns the new state; the input
    /// state is left untouched. Pure: equal inputs always give equal outputs.
    /// The action must currently be legal for its actor, and the game must
    /// not yet be decided: no transition is valid on a final state.
    pub fn translate_state(state: &GeisterState, action: &GeisterAction) -> (new_state:
        GeisterState)
        requires
            state@.well_formed(),
            action_available(state@, *action),
            (winner_spec(state@) is None),
        ensures
            new_state@ == translate_spec(state@, *action),
            new_state@.well_formed(),
    {
        let mut new_state = state.duplicate();
        let src = flat_index(action.target_geister_position);
        match get_geister_state_after_action(state, action) {
            Some(GeisterStateAfterAction::OnField(position_after_movement)) => {
                let dst = flat_index(position_after_movement);
                proof {
                    if cell_index(position_after_movement) == cell_index(
                        action.target_geister_position,
                    ) {
                        lemma_cell_index_injective(
                            position_after_movement,
                            action.target_geister_position,
                        );
                    }
                }
                new_state.kill_geister_at(position_after_movement);
                let moved_geister = new_state.lattices[src];
                new_state.lattices[dst] = moved_geister;
                new_state.lattices[src] = None;
                proof {
                    let m0 = state@;
                    assert(new_state@.board =~= m0.board.update(dst as int, m0.board[src as int])
                        .update(src as int, None));
                    assert(new_state@ =~= translate_spec(m0, *action));
                    lemma_translate_conservation(m0, *action);
                }
            },
            Some(GeisterStateAfterAction::Clear) => {
                new_state.actor_of_cleared_geister = Some(action.actor());
                new_state.lattices[src] = None;
                proof {
                    assert(new_state@ =~= translate_spec(state@, *action));
                    lemma_translate_conservation(state@, *action);
                }
            },
            None => {
                proof {
                    assert(false);
                }
            },
        }
        new_state
    }
}

/// Every action enumerated at a cell is a legal action of that actor at that
/// cell, with a movement from the candidate table.
proof fn lemma_at_cell_sound(m: StateModel, actor: Actor, p: TableIndex, k: int, a: GeisterAction)
    requires
        0 <= k,
        actions_at_cell_from(m, actor, p, k).contains(a),
    ensures
        a.target_geister_position == p,
        a.actor == actor,
        action_available(m, a),
        is_movement_candidate(a.geister_movement),
    decreases movement_candidates().len() - k,
{
    let s = actions_at_cell_from(m, actor, p, k);
    if k >= movement_candidates().len() {
        assert(false);
    } else {
        let ak = GeisterAction {
            target_geister_position: p,
            geister_movement: movement_candidates()[k],
            actor,
        };
        let h = (if action_available(m, ak) {
            seq![ak]
        } else {
            Seq::<GeisterAction>::empty()
        });
        let t = actions_at_cell_from(m, actor, p, k + 1);
        let w = choose|w: int| 0 <= w < s.len() && s[w] == a;
        if w < h.len() {
            assert(a == ak);
            assert(movement_candidates()[k] == a.geister_movement);
        } else {
            assert(t[w - h.len()] == a);
            assert(t.contains(a));
            lemma_at_cell_sound(m, actor, p, k + 1, a);
        }
    }
}

/// Every enumerated action is a legal action of the enumerating actor with a
/// movement from the candidate table.
proof fn lemma_from_sound(m: StateModel, actor: Actor, j: int, a: GeisterAction)
    requires
        0 <= j,
        available_actions_from(m, actor, j).contains(a),
    ensures
        a.actor == actor,
        action_available(m, a),
        is_movement_candidate(a.geister_movement),
    decreases m.board.len() - j,
{
    let s = available_actions_from(m, actor, j);
    if j >= m.board.len() {
        assert(false);
    } else {
        let h = actions_at_cell_from(m, actor, index_to_pos(j), 0);
        let t = available_actions_from(m, actor, j + 1);
        let w = choose|w: int| 0 <= w < s.len() && s[w] == a;
        if w < h.len() {
            assert(h[w] == a);
            assert(h.contains(a));
            lemma_at_cell_sound(m, actor, index_to_pos(j), 0, a);
        } else {
            assert(t[w - h.len()] == a);
            assert(t.contains(a));
            lemma_from_sound(m, actor, j + 1, a);
        }
    }
}

/// A legal action with a candidate movement is enumerated at its source cell.
proof fn lemma_at_cell_contains(m: StateModel, actor: Actor, p: TableIndex, k: int, a: GeisterAction)
    requires
        0 <= k,
        exists|i: int|
            k <= i < movement_candidates().len() && movement_candidates()[i]
                == a.geister_movement,
        a.target_geister_position == p,
        a.actor == actor,
        action_available(m, a),
    ensures
        actions_at_cell_from(m, actor, p, k).contains(a),
    decreases movement_candidates().len() - k,
{
    let s = actions_at_cell_from(m, actor, p, k);
    let i = choose|i: int|
        k <= i < movement_candidates().len() && movement_candidates()[i] == a.geister_movement;
    let ak = GeisterAction {
        target_geister_position: p,
        geister_movement: movement_candidates()[k],
        actor,
    };
    let h = (if action_available(m, ak) {
        seq![ak]
    } else {
        Seq::<GeisterAction>::empty()
    });
    let t = actions_at_cell_from(m, actor, p, k + 1);
    if movement_candidates()[k] == a.geister_movement {
        assert(ak == a);
        assert(s[0] == a);
    } else {
        assert(k + 1 <= i);
        lemma_at_cell_contains(m, actor, p, k + 1, a);
        let w = choose|w: int| 0 <= w < t.len() && t[w] == a;
        assert(s[h.len() + w] == a);
    }
}

/// A legal action with a candidate movement is enumerated from any starting
/// row-major position at or before its source cell.
proof fn lemma_from_contains(m: StateModel, actor: Actor, j: int, a: GeisterAction)
    requires
        0 <= j <= cell_index(a.target_geister_position) < m.board.len(),
        m.board.len() == FIELD_WIDTH * FIELD_HEIGHT,
        a.actor == actor,
        action_available(m, a),
        is_movement_candidate(a.geister_movement),
    ensures
        available_actions_from(m, actor, j).contains(a),
    decreases m.board.len() - j,
{
    let s = available_actions_from(m, actor, j);
    let h = actions_at_cell_from(m, actor, index_to_pos(j), 0);
    let t = available_actions_from(m, actor, j + 1);
    if j == cell_index(a.target_geister_position) {
        lemma_index_to_pos_in_field(j);
        lemma_cell_index_injective(index_to_pos(j), a.target_geister_position);
        lemma_at_cell_contains(m, actor, index_to_pos(j), 0, a);
        let w = choose|w: int| 0 <= w < h.len() && h[w] == a;
        assert(s[w] == a);
    } else {
        lemma_from_contains(m, actor, j + 1, a);
        let w = choose|w: int| 0 <= w < t.len() && t[w] == a;
        assert(s[h.len() + w] == a);
    }
}

/// The enumeration is sound and complete: it holds an action exactly when
/// that action is legal for the enumerating actor and uses a movement from
/// the candidate table.
pub proof fn lemma_available_actions_characterization(
    m: StateModel,
    actor: Actor,
    a: GeisterAction,
)
    requires
        m.board.len() == FIELD_WIDTH * FIELD_HEIGHT,
    ensures
        available_actions_spec(m, actor).contains(a) <==> (action_available(m, a) && a.actor
            == actor && is_movement_candidate(a.geister_movement)),
{
    if available_actions_spec(m, actor).contains(a) {
        lemma_from_sound(m, actor, 0, a);
    }
    if action_available(m, a) && a.actor == actor && is_movement_candidate(a.geister_movement) {
        assert(in_field(a.target_geister_position));
        assert(0 <= cell_index(a.target_geister_position) < m.board.len());
        lemma_from_contains(m, actor, 0, a);
    }
}

/// No enumerated directional action lands on a piece of its own actor: the
/// destination of every directional action in the enumeration is an empty
/// cell or an opposing piece.
pub proof fn lemma_same_owner_destination_excluded(
    m: StateModel,
    actor: Actor,
    a: GeisterAction,
    dx: isize,
    dy: isize,
)
    requires
        available_actions_spec(m, actor).contains(a),
        a.geister_movement == (GeisterMovement::Direction { dx, dy }),
    ensures
        direction_dest_in_field(a.target_geister_position, dx as int, dy as int),
        !cell_owned_by(
            m.cell(direction_dest(a.target_geister_position, dx as int, dy as int)),
            a.actor,
        ),
{
    lemma_from_sound(m, actor, 0, a);
}

/// Conservation: a legal action on a well-formed state performs exactly one
/// of capture-and-move, move-to-empty, or exit; a directional action keeps
/// every (kind, owner) on-board-plus-killed total unchanged, the exit move
/// lowers the exiting pair's total by one, and the resulting state is again
/// well formed, so no total ever exceeds the initial allotment.
pub proof fn lemma_translate_conservation(m: StateModel, a: GeisterAction)
    requires
        m.well_formed(),
        action_available(m, a),
    ensures
        translate_spec(m, a).well_formed(),
        is_capture_action(m, a) || is_plain_move_action(m, a) || is_exit_action(a),
        is_capture_action(m, a) ==> !is_plain_move_action(m, a) && !is_exit_action(a),
        is_plain_move_action(m, a) ==> !is_capture_action(m, a) && !is_exit_action(a),
        is_exit_action(a) ==> !is_capture_action(m, a) && !is_plain_move_action(m, a),
        !is_exit_action(a) ==> forall|og: OwnedGeister|
            #[trigger] translate_spec(m, a).piece_count(og) + translate_spec(m, a).killed_of(og)
                == m.piece_count(og) + m.killed_of(og),
        is_exit_action(a) ==> forall|og: OwnedGeister|
            #[trigger] translate_spec(m, a).piece_count(og) + translate_spec(m, a).killed_of(og)
                == m.piece_count(og) + m.killed_of(og) - (if og == owned_geister(
                Geister::Holy,
                a.actor,
            ) {
                1int
            } else {
                0int
            }),
        is_exit_action(a) ==> winner_spec(translate_spec(m, a)) == Some(a.actor),
        !is_exit_action(a) ==> translate_spec(m, a).cleared == m.cleared,
{
    let src = cell_index(a.target_geister_position);
    let t = translate_spec(m, a);
    match a.geister_movement {
        GeisterMovement::Direction { dx, dy } => {
            let dest_p = direction_dest(a.target_geister_position, dx as int, dy as int);
            let dest = cell_index(dest_p);
            if src == dest {
                lemma_cell_index_injective(a.target_geister_position, dest_p);
                assert(false);
            }
            let mover = m.board[src];
            let b1 = m.board.update(dest, mover);
            assert forall|og: OwnedGeister|
                #[trigger] t.piece_count(og) + t.killed_of(og) == m.piece_count(og) + m.killed_of(
                    og,
                ) by {
                lemma_count_of_update_from(m.board, og, dest, mover, 0);
                lemma_count_of_update_from(b1, og, src, None, 0);
                assert(b1[src] == m.board[src]);
            }
        },
        GeisterMovement::Clear => {
            let exiting = owned_geister(Geister::Holy, a.actor);
            assert forall|og: OwnedGeister|
                #[trigger] t.piece_count(og) + t.killed_of(og) == m.piece_count(og) + m.killed_of(
                    og,
                ) - (if og == exiting {
                    1int
                } else {
                    0int
                }) by {
                lemma_count_of_update_from(m.board, og, src, None, 0);
            }
        },
    }
}

/// One legal step of play: the action is legal in the source state, the game
/// is not yet decided there, and the target state is the transition's result.
pub open spec fn step_allowed(m1: StateModel, a: GeisterAction, m2: StateModel) -> bool {
    &&& action_available(m1, a)
    &&& (winner_spec(m1) is None)
    &&& m2 == translate_spec(m1, a)
}

/// Whether `m` arises from `m0` by playing exactly the given actions in
/// order, each one legal when it is played.
pub open spec fn reachable_via(m0: StateModel, steps: Seq<GeisterAction>, m: StateModel) -> bool
    decreases steps.len(),
{
    if steps.len() == 0 {
        m == m0
    } else {
        exists|mid: StateModel|
            reachable_via(m0, steps.drop_last(), mid) && #[trigger] step_allowed(
                mid,
                steps.last(),
                m,
            )
    }
}

/// The state invariant holds of every reachable state: starting from any
/// well-formed state (an initial state among them), every sequence of legal
/// transitions leads to a well-formed state, so for every (kind, owner) pair
/// the pieces on the board and the captured ones never exceed the initial
/// allotment.
pub proof fn lemma_reachable_well_formed(m0: StateModel, steps: Seq<GeisterAction>, m: StateModel)
    requires
        m0.well_formed(),
        reachable_via(m0, steps, m),
    ensures
        m.well_formed(),
    decreases steps.len(),
{
    if steps.len() > 0 {
        let mid = choose|mid: StateModel|
            reachable_via(m0, steps.drop_last(), mid) && #[trigger] step_allowed(
                mid,
                steps.last(),
                m,
            );
        lemma_reachable_well_formed(m0, steps.drop_last(), mid);
        lemma_translate_conservation(mid, steps.last());
    }
}

/// Whether the cell in column `x` of row `y` holds a piece of the actor.
pub open spec fn owned_at(m: StateModel, actor: Actor, x: int, y: int) -> bool {
    &&& 0 <= x < FIELD_WIDTH
    &&& 0 <= y < FIELD_HEIGHT
    &&& cell_owned_by(m.board[y * (FIELD_WIDTH as int) + x], actor)
}

/// Every piece of the actor is walled in: each of its in-field orthogonal
/// neighbour cells holds a piece of the same actor.
spec fn all_blocked(m: StateModel, actor: Actor) -> bool {
    forall|x: int, y: int|
        #[trigger] owned_at(m, actor, x, y) ==> {
            &&& x > 0 ==> owned_at(m, actor, x - 1, y)
            &&& x < FIELD_WIDTH - 1 ==> owned_at(m, actor, x + 1, y)
            &&& y > 0 ==> owned_at(m, actor, x, y - 1)
            &&& y < FIELD_HEIGHT - 1 ==> owned_at(m, actor, x, y + 1)
        }
}

#[verifier::rlimit(50)]
proof fn lemma_spread_left(m: StateModel, actor: Actor, x: int, y: int)
    requires
        all_blocked(m, actor),
        owned_at(m, actor, x, y),
    ensures
        forall|x2: int| 0 <= x2 <= x ==> owned_at(m, actor, x2, y),
    decreases x,
{
    if x > 0 {
        assert(owned_at(m, actor, x - 1, y));
        lemma_spread_left(m, actor, x - 1, y);
    }
}

#[verifier::rlimit(50)]
proof fn lemma_spread_right(m: StateModel, actor: Actor, x: int, y: int)
    requires
        all_blocked(m, actor),
        owned_at(m, actor, x, y),
    ensures
        forall|x2: int| x <= x2 < FIELD_WIDTH ==> owned_at(m, actor, x2, y),
    decreases FIELD_WIDTH - x,
{
    if x < FIELD_WIDTH - 1 {
        assert(owned_at(m, actor, x + 1, y));
        lemma_spread_right(m, actor, x + 1, y);
    }
}

#[verifier::rlimit(50)]
proof fn lemma_spread_up(m: StateModel, actor: Actor, x: int, y: int)
    requires
        all_blocked(m, actor),
        owned_at(m, actor, x, y),
    ensures
        forall|y2: int| 0 <= y2 <= y ==> owned_at(m, actor, x, y2),
    decreases y,
{
    if y > 0 {
        assert(owned_at(m, actor, x, y - 1));
        lemma_spread_up(m, actor, x, y - 1);
    }
}

#[verifier::rlimit(50)]
proof fn lemma_spread_down(m: StateModel, actor: Actor, x: int, y: int)
    requires
        all_blocked(m, actor),
        owned_at(m, actor, x, y),
    ensures
        forall|y2: int| y <= y2 < FIELD_HEIGHT ==> owned_at(m, actor, x, y2),
    decreases FIELD_HEIGHT - y,
{
    if y < FIELD_HEIGHT - 1 {
        assert(owned_at(m, actor, x, y + 1));
        lemma_spread_down(m, actor, x, y + 1);
    }
}

/// If every piece of an actor is walled in by its own pieces and one piece
/// stands on the board, the actor owns every cell of the connected field.
proof fn lemma_all_owned(m: StateModel, actor: Actor, x0: int, y0: int)
    requires
        all_blocked(m, actor),
        owned_at(m, actor, x0, y0),
    ensures
        forall|x: int, y: int|
            0 <= x < FIELD_WIDTH && 0 <= y < FIELD_HEIGHT ==> owned_at(m, actor, x, y),
{
    lemma_spread_left(m, actor, x0, y0);
    lemma_spread_right(m, actor, x0, y0);
    assert forall|x: int, y: int|
        0 <= x < FIELD_WIDTH && 0 <= y < FIELD_HEIGHT implies owned_at(m, actor, x, y) by {
        assert(owned_at(m, actor, x, y0));
        lemma_spread_up(m, actor, x, y0);
        lemma_spread_down(m, actor, x, y0);
    }
}

/// Liveness: in a well-formed state, an actor with at least one piece on the
/// board has at least one legal action, so the enumeration is never empty.
/// This holds of every state the rules can reach, terminal ones included.
pub proof fn lemma_available_actions_nonempty(m: StateModel, actor: Actor)
    requires
        m.well_formed(),
        exists|p: TableIndex| in_field(p) && cell_owned_by(#[trigger] m.cell(p), actor),
    ensures
        available_actions_spec(m, actor).len() > 0,
{
    if available_actions_spec(m, actor).len() == 0 {
        assert forall|x: int, y: int| #[trigger] owned_at(m, actor, x, y) implies {
            &&& x > 0 ==> owned_at(m, actor, x - 1, y)
            &&& x < FIELD_WIDTH - 1 ==> owned_at(m, actor, x + 1, y)
            &&& y > 0 ==> owned_at(m, actor, x, y - 1)
            &&& y < FIELD_HEIGHT - 1 ==> owned_at(m, actor, x, y + 1)
        } by {
            let p = TableIndex { x: x as usize, y: y as usize };
            assert(cell_index(p) == y * (FIELD_WIDTH as int) + x);
            if x > 0 && !owned_at(m, actor, x - 1, y) {
                let a = GeisterAction {
                    target_geister_position: p,
                    geister_movement: GeisterMovement::Direction { dx: -1isize, dy: 0isize },
                    actor,
                };
                assert(direction_dest(p, -1, 0) == (TableIndex {
                    x: (x - 1) as usize,
                    y: y as usize,
                }));
                assert(action_available(m, a));
                assert(movement_candidates()[1] == a.geister_movement);
                lemma_from_contains(m, actor, 0, a);
                assert(false);
            }
            if x < FIELD_WIDTH - 1 && !owned_at(m, actor, x + 1, y) {
                let a = GeisterAction {
                    target_geister_position: p,
                    geister_movement: GeisterMovement::Direction { dx: 1isize, dy: 0isize },
                    actor,
                };
                assert(direction_dest(p, 1, 0) == (TableIndex {
                    x: (x + 1) as usize,
                    y: y as usize,
                }));
                assert(action_available(m, a));
                assert(movement_candidates()[0] == a.geister_movement);
                lemma_from_contains(m, actor, 0, a);
                assert(false);
            }
            if y > 0 && !owned_at(m, actor, x, y - 1) {
                let a = GeisterAction {
                    target_geister_position: p,
                    geister_movement: GeisterMovement::Direction { dx: 0isize, dy: -1isize },
                    actor,
                };
                assert(direction_dest(p, 0, -1) == (TableIndex {
                    x: x as usize,
                    y: (y - 1) as usize,
                }));
                assert(action_available(m, a));
                assert(movement_candidates()[3] == a.geister_movement);
                lemma_from_contains(m, actor, 0, a);
                assert(false);
            }
            if y < FIELD_HEIGHT - 1 && !owned_at(m, actor, x, y + 1) {
                let a = GeisterAction {
                    target_geister_position: p,
                    geister_movement: GeisterMovement::Direction { dx: 0isize, dy: 1isize },
                    actor,
                };
                assert(direction_dest(p, 0, 1) == (TableIndex {
                    x: x as usize,
                    y: (y + 1) as usize,
                }));
                assert(action_available(m, a));
                assert(movement_candidates()[2] == a.geister_movement);
                lemma_from_contains(m, actor, 0, a);
                assert(false);
            }
        }
        let p0 = choose|p: TableIndex| in_field(p) && cell_owned_by(#[trigger] m.cell(p), actor);
        assert(owned_at(m, actor, p0.x as int, p0.y as int));
        lemma_all_owned(m, actor, p0.x as int, p0.y as int);
        assert forall|j: int| 0 <= j < m.board.len() implies cell_owned_by(
            #[trigger] m.board[j],
            actor,
        ) by {
            crate::state::lemma_index_to_pos_in_field(j);
            let q = index_to_pos(j);
            assert(owned_at(m, actor, q.x as int, q.y as int));
            assert(cell_index(q) == j);
        }
        crate::state::lemma_count_owned_full(m.board, actor, 0);
        crate::state::lemma_count_owned_split(m.board, actor, 0);
        assert(m.accounted(owned_geister(Geister::Holy, actor)));
        assert(m.accounted(owned_geister(Geister::Evil, actor)));
        assert(false);
    }
}

} // verus!
