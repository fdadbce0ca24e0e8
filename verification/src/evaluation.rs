//! The heuristic evaluator: an exact payoff over one concrete state, and the
//! possible-worlds average over hidden piece kinds.

use vstd::prelude::*;
use crate::actor::Actor;
use crate::rule::{clearable_position_of, clearable_position_spec, winner_spec, GeisterRule};
use crate::state::{cell_index, cell_owned_by, flat_index, in_field, lemma_cell_index_injective,
    lemma_count_owned_split, lemma_og_positions_contains, lemma_og_positions_in_field,
    lemma_og_positions_pointwise, lemma_owner_positions_bounds, lemma_owner_positions_distinct,
    lemma_owner_positions_len, og_positions_from, owned_geister, owner_positions_from, Geister,
    GeisterState, OwnedGeister, StateModel, TableIndex, FIELD_HEIGHT, FIELD_WIDTH,
    INITIAL_GEISTER_COUNT};

verus! {

/// The payoff type of the evaluator; higher is better for the scored actor.
pub type GeisterPayoff = i32;

/// The Manhattan distance between two cells.
pub open spec fn manhattan(p: TableIndex, q: TableIndex) -> int {
    (if p.x >= q.x {
        p.x - q.x
    } else {
        q.x - p.x
    }) + (if p.y >= q.y {
        p.y - q.y
    } else {
        q.y - p.y
    })
}

/// The smallest Manhattan distance from any cell of `ps` to `goal`
/// (meaningful only for a non-empty `ps`).
pub open spec fn min_distance_to(ps: Seq<TableIndex>, goal: TableIndex) -> int
    decreases ps.len(),
{
    if ps.len() == 0 {
        0
    } else if ps.len() == 1 {
        manhattan(ps[0], goal)
    } else {
        let prev = min_distance_to(ps.drop_last(), goal);
        let dl = manhattan(ps.last(), goal);
        if dl < prev {
            dl
        } else {
            prev
        }
    }
}

/// The row-major cells of an actor's surviving good pieces.
pub open spec fn holy_positions(m: StateModel, actor: Actor) -> Seq<TableIndex> {
    og_positions_from(m.board, owned_geister(Geister::Holy, actor), 0)
}

/// The capture part of the heuristic: own good losses weigh -1, own evil
/// losses +4 (they advance the owner's paradox win), opposing good losses +5,
/// opposing evil losses -1.
pub open spec fn kill_score(actor: Actor, m: StateModel) -> int {
    let opp = actor.opponent_spec();
    -1 * m.killed_of(owned_geister(Geister::Holy, actor)) + 4 * m.killed_of(
        owned_geister(Geister::Evil, actor),
    ) + 5 * m.killed_of(owned_geister(Geister::Holy, opp)) - 1 * m.killed_of(
        owned_geister(Geister::Evil, opp),
    )
}

/// The heuristic payoff of a non-terminal state for an actor: the capture
/// score, plus ten times the distance from the actor's closest surviving good
/// piece to its exit cell, minus the distance from the opponent's closest
/// surviving good piece to that same exit cell.
pub open spec fn heuristic_payoff_spec(actor: Actor, m: StateModel) -> int {
    kill_score(actor, m) + 10 * min_distance_to(
        holy_positions(m, actor),
        clearable_position_spec(actor),
    ) - min_distance_to(holy_positions(m, actor.opponent_spec()), clearable_position_spec(actor))
}

/// The payoff of one concrete state: +100 or -100 once the game is decided,
/// the heuristic otherwise.
pub open spec fn exact_payoff_spec(actor: Actor, m: StateModel) -> int {
    match winner_spec(m) {
        Some(w) => if w == actor {
            100
        } else {
            -100
        },
        None => heuristic_payoff_spec(actor, m),
    }
}

/// The Manhattan distance between two field cells.
fn manhattan_distance(p: TableIndex, q: TableIndex) -> (r: usize)
    requires
        in_field(p),
        in_field(q),
    ensures
        r == manhattan(p, q),
        r <= 10,
{
    let dx = if p.x >= q.x {
        p.x - q.x
    } else {
        q.x - p.x
    };
    let dy = if p.y >= q.y {
        p.y - q.y
    } else {
        q.y - p.y
    };
    dx + dy
}

/// The smallest Manhattan distance from any of the given field cells to
/// `goal`.
fn min_distance_over(ps: &Vec<TableIndex>, goal: TableIndex) -> (r: usize)
    requires
        ps@.len() > 0,
        forall|k: int| 0 <= k < ps@.len() ==> in_field(#[trigger] ps@[k]),
        in_field(goal),
    ensures
        r == min_distance_to(ps@, goal),
        r <= 10,
{
    let mut acc = manhattan_distance(ps[0], goal);
    proof {
        assert(ps@.take(1) =~= seq![ps@[0]]);
    }
    let mut i: usize = 1;
    while i < ps.len()
        invariant
            1 <= i <= ps@.len(),
            forall|k: int| 0 <= k < ps@.len() ==> in_field(#[trigger] ps@[k]),
            in_field(goal),
            acc == min_distance_to(ps@.take(i as int), goal),
            acc <= 10,
        decreases ps@.len() - i,
    {
        let d = manhattan_distance(ps[i], goal);
        proof {
            let t1 = ps@.take(i + 1);
            assert(t1.drop_last() =~= ps@.take(i as int));
            assert(t1.last() == ps@[i as int]);
        }
        if d < acc {
            acc = d;
        }
        i = i + 1;
    }
    proof {
        assert(ps@.take(ps@.len() as int) =~= ps@);
    }
    acc
}

/// The stateless heuristic evaluator over Geister states.
pub struct GeisterEvaluator {}

/// The payoff of one fully concrete state for `actor`: +100 or -100 on a
/// decided game; otherwise the capture score plus the two positional terms.
/// The distance of the actor's own closest good piece to its exit is added
/// with weight 10 exactly as the rules of this engine define it.
pub fn evaluate_payoff_for_exact_state(actor: Actor, exact_state: &GeisterState) -> (r:
    GeisterPayoff)
    requires
        exact_state@.board.len() == FIELD_WIDTH * FIELD_HEIGHT,
        forall|og: OwnedGeister| #[trigger] exact_state@.killed_of(og) <= INITIAL_GEISTER_COUNT,
        (winner_spec(exact_state@) is None) ==> holy_positions(exact_state@, actor).len() > 0
            && holy_positions(exact_state@, actor.opponent_spec()).len() > 0,
    ensures
        r == exact_payoff_spec(actor, exact_state@),
        -300 <= r <= 300,
{
    match GeisterRule::winner_of(exact_state) {
        Some(winner) => {
            if winner == actor {
                100
            } else {
                -100
            }
        },
        None => {
            let opp = actor.opponent();
            let own_holy_killed = exact_state.killed_geister_count(
                OwnedGeister::new(Geister::Holy, actor),
            );
            let own_evil_killed = exact_state.killed_geister_count(
                OwnedGeister::new(Geister::Evil, actor),
            );
            let opp_holy_killed = exact_state.killed_geister_count(
                OwnedGeister::new(Geister::Holy, opp),
            );
            let opp_evil_killed = exact_state.killed_geister_count(
                OwnedGeister::new(Geister::Evil, opp),
            );
            let mut payoff: i32 = -(own_holy_killed as i32) + 4 * (own_evil_killed as i32) + 5 * (
            opp_holy_killed as i32) - (opp_evil_killed as i32);
            let goal = clearable_position_of(actor);
            let own_holy = exact_state.iterate_owned_geister_positions(
                OwnedGeister::new(Geister::Holy, actor),
            );
            proof {
                lemma_og_positions_in_field(
                    exact_state@.board,
                    owned_geister(Geister::Holy, actor),
                    0,
                );
            }
            let closest_own = min_distance_over(&own_holy, goal);
            payoff = payoff + (closest_own as i32) * 10;
            let opp_holy = exact_state.iterate_owned_geister_positions(
                OwnedGeister::new(Geister::Holy, opp),
            );
            proof {
                lemma_og_positions_in_field(
                    exact_state@.board,
                    owned_geister(Geister::Holy, opp),
                    0,
                );
            }
            let closest_opp = min_distance_over(&opp_holy, goal);
            payoff = payoff - (closest_opp as i32);
            payoff
        },
    }
}

/// The model with the piece on cell `p` replaced by the given kind of the
/// given owner.
pub open spec fn assign_kind(m: StateModel, p: TableIndex, g: Geister, owner: Actor) -> StateModel {
    StateModel { board: m.board.update(cell_index(p), Some(owned_geister(g, owner))), ..m }
}

/// Whether some cell of `ps` at list position `i` or beyond has the
/// row-major position `j`.
pub open spec fn covers_from(ps: Seq<TableIndex>, i: int, j: int) -> bool {
    exists|k: int| i <= k < ps.len() && cell_index(ps[k]) == j
}

/// All concrete kind assignments to the owner's pieces on the cells
/// `ps[i..]`, with `h` good and `e` evil kinds left to hand out: each cell in
/// turn takes the good kind first, then the evil kind.
pub open spec fn worlds_from(
    m: StateModel,
    owner: Actor,
    ps: Seq<TableIndex>,
    i: int,
    h: int,
    e: int,
) -> Seq<StateModel>
    decreases ps.len() - i,
{
    if i < 0 || i >= ps.len() {
        if h == 0 && e == 0 {
            seq![m]
        } else {
            Seq::empty()
        }
    } else {
        (if h > 0 {
            worlds_from(assign_kind(m, ps[i], Geister::Holy, owner), owner, ps, i + 1, h - 1, e)
        } else {
            Seq::empty()
        }) + (if e > 0 {
            worlds_from(assign_kind(m, ps[i], Geister::Evil, owner), owner, ps, i + 1, h, e - 1)
        } else {
            Seq::empty()
        })
    }
}

/// Two to the given power.
pub open spec fn pow2_spec(n: int) -> int
    decreases n,
{
    if n <= 0 {
        1
    } else {
        2 * pow2_spec(n - 1)
    }
}

proof fn lemma_pow2_pos(n: int)
    ensures
        pow2_spec(n) >= 1,
    decreases n,
{
    if n > 0 {
        lemma_pow2_pos(n - 1);
    }
}

proof fn lemma_pow2_mono(a: int, b: int)
    requires
        a <= b,
    ensures
        pow2_spec(a) <= pow2_spec(b),
    decreases b - a,
{
    if a < b {
        lemma_pow2_mono(a, b - 1);
        lemma_pow2_pos(b - 1);
    }
}

/// The factorial of a count of hidden pieces.
pub open spec fn factorial_spec(n: nat) -> nat
    decreases n,
{
    if n == 0 {
        1
    } else {
        n * factorial_spec((n - 1) as nat)
    }
}

/// What every enumerated world shares with the state it came from: counters,
/// marker and board size unchanged, cells off the assigned list unchanged,
/// every assigned cell still held by the owner, and a good piece among the
/// assignments whenever at least one good kind was left to hand out.
pub open spec fn world_ok(
    m: StateModel,
    owner: Actor,
    ps: Seq<TableIndex>,
    i: int,
    h: int,
    w: StateModel,
) -> bool {
    &&& w.board.len() == m.board.len()
    &&& w.killed_holy_first == m.killed_holy_first
    &&& w.killed_evil_first == m.killed_evil_first
    &&& w.killed_holy_second == m.killed_holy_second
    &&& w.killed_evil_second == m.killed_evil_second
    &&& w.cleared == m.cleared
    &&& forall|j: int|
        0 <= j < m.board.len() && !covers_from(ps, i, j) ==> w.board[j] == m.board[j]
    &&& forall|k: int|
        i <= k < ps.len() && cell_index(ps[k]) < m.board.len() ==> cell_owned_by(
            #[trigger] w.board[cell_index(ps[k])],
            owner,
        )
    &&& (h >= 1 ==> exists|k: int|
        i <= k < ps.len() && cell_index(ps[k]) < m.board.len() && w.board[cell_index(ps[k])]
            == Some(owned_geister(Geister::Holy, owner)))
}

/// The worlds enumerated over distinct on-field cells are at least one and at
/// most two to the number of cells, and every one of them satisfies
/// `world_ok`.
proof fn lemma_worlds_from_properties(
    m: StateModel,
    owner: Actor,
    ps: Seq<TableIndex>,
    i: int,
    h: int,
    e: int,
)
    requires
        0 <= i <= ps.len(),
        h >= 0,
        e >= 0,
        h + e == ps.len() - i,
        forall|k: int| 0 <= k < ps.len() ==> in_field(#[trigger] ps[k]),
        forall|k1: int, k2: int| 0 <= k1 < k2 < ps.len() ==> ps[k1] != ps[k2],
        m.board.len() == FIELD_WIDTH * FIELD_HEIGHT,
    ensures
        1 <= worlds_from(m, owner, ps, i, h, e).len(),
        worlds_from(m, owner, ps, i, h, e).len() <= pow2_spec(ps.len() - i),
        forall|wi: int|
            0 <= wi < worlds_from(m, owner, ps, i, h, e).len() ==> world_ok(
                m,
                owner,
                ps,
                i,
                h,
                #[trigger] worlds_from(m, owner, ps, i, h, e)[wi],
            ),
    decreases ps.len() - i,
{
    let ws = worlds_from(m, owner, ps, i, h, e);
    if i >= ps.len() {
        assert(ws == seq![m]);
        assert(ws.len() == 1);
    } else {
        let p = ps[i];
        let c = cell_index(p);
        let mh = assign_kind(m, p, Geister::Holy, owner);
        let me = assign_kind(m, p, Geister::Evil, owner);
        let wh = (if h > 0 {
            worlds_from(mh, owner, ps, i + 1, h - 1, e)
        } else {
            Seq::<StateModel>::empty()
        });
        let we = (if e > 0 {
            worlds_from(me, owner, ps, i + 1, h, e - 1)
        } else {
            Seq::<StateModel>::empty()
        });
        assert(ws == wh + we);
        assert(0 <= c < m.board.len());
        assert forall|k: int| i + 1 <= k < ps.len() implies cell_index(#[trigger] ps[k]) != c by {
            if cell_index(ps[k]) == c {
                lemma_cell_index_injective(ps[k], p);
            }
        }
        assert(!covers_from(ps, i + 1, c)) by {
            if covers_from(ps, i + 1, c) {
                let k = choose|k: int| i + 1 <= k < ps.len() && cell_index(ps[k]) == c;
                assert(cell_index(ps[k]) != c);
            }
        }
        if h > 0 {
            lemma_worlds_from_properties(mh, owner, ps, i + 1, h - 1, e);
        }
        if e > 0 {
            lemma_worlds_from_properties(me, owner, ps, i + 1, h, e - 1);
        }
        lemma_pow2_pos(ps.len() - i - 1);
        assert forall|wi: int| 0 <= wi < ws.len() implies world_ok(
            m,
            owner,
            ps,
            i,
            h,
            #[trigger] ws[wi],
        ) by {
            if wi < wh.len() {
                let w = wh[wi];
                assert(ws[wi] == w);
                assert(world_ok(mh, owner, ps, i + 1, h - 1, w));
                assert(w.board[c] == mh.board[c]);
                assert(mh.board[c] == Some(owned_geister(Geister::Holy, owner)));
                assert forall|j: int|
                    0 <= j < m.board.len() && !covers_from(ps, i, j) implies w.board[j]
                    == m.board[j] by {
                    if covers_from(ps, i + 1, j) {
                        let k = choose|k: int| i + 1 <= k < ps.len() && cell_index(ps[k]) == j;
                        assert(i <= k < ps.len() && cell_index(ps[k]) == j);
                        assert(covers_from(ps, i, j));
                    }
                    if j == c {
                        assert(cell_index(ps[i]) == j);
                        assert(covers_from(ps, i, j));
                    }
                    assert(mh.board[j] == m.board[j]);
                }
                assert forall|k: int|
                    i <= k < ps.len() && cell_index(ps[k]) < m.board.len() implies cell_owned_by(
                    #[trigger] w.board[cell_index(ps[k])],
                    owner,
                ) by {
                    if k == i {
                        assert(w.board[c] == Some(owned_geister(Geister::Holy, owner)));
                    }
                }
                assert(i <= i < ps.len() && cell_index(ps[i]) < m.board.len() && w.board[cell_index(
                    ps[i],
                )] == Some(owned_geister(Geister::Holy, owner)));
            } else {
                let w = we[wi - wh.len()];
                assert(ws[wi] == w);
                assert(world_ok(me, owner, ps, i + 1, h, w));
                assert(w.board[c] == me.board[c]);
                assert(me.board[c] == Some(owned_geister(Geister::Evil, owner)));
                assert forall|j: int|
                    0 <= j < m.board.len() && !covers_from(ps, i, j) implies w.board[j]
                    == m.board[j] by {
                    if covers_from(ps, i + 1, j) {
                        let k = choose|k: int| i + 1 <= k < ps.len() && cell_index(ps[k]) == j;
                        assert(i <= k < ps.len() && cell_index(ps[k]) == j);
                        assert(covers_from(ps, i, j));
                    }
                    if j == c {
                        assert(cell_index(ps[i]) == j);
                        assert(covers_from(ps, i, j));
                    }
                    assert(me.board[j] == m.board[j]);
                }
                assert forall|k: int|
                    i <= k < ps.len() && cell_index(ps[k]) < m.board.len() implies cell_owned_by(
                    #[trigger] w.board[cell_index(ps[k])],
                    owner,
                ) by {
                    if k == i {
                        assert(w.board[c] == Some(owned_geister(Geister::Evil, owner)));
                    }
                }
                if h >= 1 {
                    let k = choose|k: int|
                        i + 1 <= k < ps.len() && cell_index(ps[k]) < me.board.len()
                            && w.board[cell_index(ps[k])] == Some(
                            owned_geister(Geister::Holy, owner),
                        );
                    assert(i <= k < ps.len() && cell_index(ps[k]) < m.board.len()
                        && w.board[cell_index(ps[k])] == Some(
                        owned_geister(Geister::Holy, owner),
                    ));
                }
            }
        }
    }
}

/// The cells of the opponent's on-board pieces, whose kinds the viewpoint
/// actor cannot observe.
pub open spec fn hidden_positions(viewpoint: Actor, m: StateModel) -> Seq<TableIndex> {
    owner_positions_from(m.board, viewpoint.opponent_spec(), 0)
}

/// How many of the opponent's good pieces are still unrevealed.
pub open spec fn hidden_holy_count(viewpoint: Actor, m: StateModel) -> int {
    INITIAL_GEISTER_COUNT - m.killed_of(owned_geister(Geister::Holy, viewpoint.opponent_spec()))
}

/// How many of the opponent's evil pieces are still unrevealed.
pub open spec fn hidden_evil_count(viewpoint: Actor, m: StateModel) -> int {
    INITIAL_GEISTER_COUNT - m.killed_of(owned_geister(Geister::Evil, viewpoint.opponent_spec()))
}

/// The possible worlds of a state from one actor's viewpoint: every concrete
/// assignment of the unrevealed kinds to the opponent's on-board pieces that
/// is consistent with the kinds already revealed through capture.
pub open spec fn possible_worlds_spec(viewpoint: Actor, m: StateModel) -> Seq<StateModel> {
    worlds_from(
        m,
        viewpoint.opponent_spec(),
        hidden_positions(viewpoint, m),
        0,
        hidden_holy_count(viewpoint, m),
        hidden_evil_count(viewpoint, m),
    )
}

/// The number of equally likely permutations of the unrevealed pieces that
/// collapse to any one possible world.
pub open spec fn world_multiplicity_spec(viewpoint: Actor, m: StateModel) -> int {
    factorial_spec(hidden_holy_count(viewpoint, m) as nat) * factorial_spec(
        hidden_evil_count(viewpoint, m) as nat,
    ) as int
}

/// The factorial of a hidden-piece count.
fn factorial(n: usize) -> (r: usize)
    requires
        n <= INITIAL_GEISTER_COUNT,
    ensures
        r == factorial_spec(n as nat),
        1 <= r <= 24,
{
    proof {
        assert(factorial_spec(0) == 1);
        assert(factorial_spec(1) == 1);
        assert(factorial_spec(2) == 2);
        assert(factorial_spec(3) == 6);
        assert(factorial_spec(4) == 24);
    }
    match n {
        0 => 1,
        1 => 1,
        2 => 2,
        3 => 6,
        _ => 24,
    }
}

/// Builds one concrete state per kind assignment to the owner's pieces on
/// `positions[i..]`, handing out `h` good and `e` evil kinds.
fn enumerate_worlds(
    current: &GeisterState,
    owner: Actor,
    positions: &Vec<TableIndex>,
    i: usize,
    h: usize,
    e: usize,
) -> (r: Vec<GeisterState>)
    requires
        i <= positions@.len(),
        h + e == positions@.len() - i,
        forall|k: int| 0 <= k < positions@.len() ==> in_field(#[trigger] positions@[k]),
        current@.board.len() == FIELD_WIDTH * FIELD_HEIGHT,
    ensures
        r@.map_values(|s: GeisterState| s@) == worlds_from(
            current@,
            owner,
            positions@,
            i as int,
            h as int,
            e as int,
        ),
    decreases positions@.len() - i,
{
    let mut r: Vec<GeisterState> = Vec::new();
    if i == positions.len() {
        r.push(current.duplicate());
        proof {
            assert(r@.map_values(|s: GeisterState| s@) =~= seq![current@]);
        }
    } else {
        let p = positions[i];
        let c = flat_index(p);
        if h > 0 {
            let mut assigned = current.duplicate();
            assigned.lattices[c] = Some(OwnedGeister::new(Geister::Holy, owner));
            proof {
                assert(assigned@ =~= assign_kind(current@, p, Geister::Holy, owner));
            }
            let mut sub = enumerate_worlds(&assigned, owner, positions, i + 1, h - 1, e);
            r.append(&mut sub);
        }
        if e > 0 {
            let mut assigned = current.duplicate();
            assigned.lattices[c] = Some(OwnedGeister::new(Geister::Evil, owner));
            proof {
                assert(assigned@ =~= assign_kind(current@, p, Geister::Evil, owner));
            }
            let mut sub = enumerate_worlds(&assigned, owner, positions, i + 1, h, e - 1);
            r.append(&mut sub);
        }
        proof {
            let wh = (if h > 0 {
                worlds_from(
                    assign_kind(current@, p, Geister::Holy, owner),
                    owner,
                    positions@,
                    i + 1,
                    h - 1,
                    e as int,
                )
            } else {
                Seq::<StateModel>::empty()
            });
            let we = (if e > 0 {
                worlds_from(
                    assign_kind(current@, p, Geister::Evil, owner),
                    owner,
                    positions@,
                    i + 1,
                    h as int,
                    e - 1,
                )
            } else {
                Seq::<StateModel>::empty()
            });
            assert(r@.map_values(|s: GeisterState| s@) =~= wh + we);
        }
    }
    r
}

/// Enumerates the possible worlds of a state from one actor's viewpoint,
/// each paired with its multiplicity: the number of equally likely
/// permutations of the unrevealed opposing pieces that produce it. The
/// multiplicity is the same for every world of one state.
pub fn iterate_possible_states(viewpoint_actor: Actor, state: &GeisterState) -> (r: Vec<
    (GeisterState, usize),
>)
    requires
        state@.well_formed(),
        state@.piece_count(owned_geister(Geister::Holy, viewpoint_actor.opponent_spec()))
            + state@.killed_of(owned_geister(Geister::Holy, viewpoint_actor.opponent_spec()))
            == INITIAL_GEISTER_COUNT,
        state@.piece_count(owned_geister(Geister::Evil, viewpoint_actor.opponent_spec()))
            + state@.killed_of(owned_geister(Geister::Evil, viewpoint_actor.opponent_spec()))
            == INITIAL_GEISTER_COUNT,
    ensures
        1 <= r@.len() <= 256,
        r@.map_values(|w: (GeisterState, usize)| w.0@) == possible_worlds_spec(
            viewpoint_actor,
            state@,
        ),
        forall|k: int|
            0 <= k < r@.len() ==> (#[trigger] r@[k]).1 == world_multiplicity_spec(
                viewpoint_actor,
                state@,
            ),
        forall|k: int| 0 <= k < r@.len() ==> 1 <= (#[trigger] r@[k]).1 <= 576,
{
    let owner = viewpoint_actor.opponent();
    let positions = state.iterate_geister_positions_of(owner);
    let kh = state.killed_geister_count(OwnedGeister::new(Geister::Holy, owner));
    let ke = state.killed_geister_count(OwnedGeister::new(Geister::Evil, owner));
    let h = INITIAL_GEISTER_COUNT - kh;
    let e = INITIAL_GEISTER_COUNT - ke;
    proof {
        lemma_owner_positions_len(state@.board, owner, 0);
        lemma_count_owned_split(state@.board, owner, 0);
        lemma_owner_positions_bounds(state@.board, owner, 0);
        lemma_owner_positions_distinct(state@.board, owner, 0);
        lemma_worlds_from_properties(state@, owner, positions@, 0, h as int, e as int);
        lemma_pow2_mono(positions@.len() as int, 8);
        assert(pow2_spec(0) == 1);
        assert(pow2_spec(1) == 2);
        assert(pow2_spec(2) == 4);
        assert(pow2_spec(3) == 8);
        assert(pow2_spec(4) == 16);
        assert(pow2_spec(5) == 32);
        assert(pow2_spec(6) == 64);
        assert(pow2_spec(7) == 128);
        assert(pow2_spec(8) == 256);
    }
    let worlds = enumerate_worlds(state, owner, &positions, 0, h, e);
    let fh = factorial(h);
    let fe = factorial(e);
    proof {
        assert(1 <= fh * fe <= 576) by (nonlinear_arith)
            requires
                1 <= fh <= 24,
                1 <= fe <= 24,
        ;
    }
    let mult = fh * fe;
    let mut r: Vec<(GeisterState, usize)> = Vec::new();
    let mut j: usize = 0;
    while j < worlds.len()
        invariant
            j <= worlds@.len(),
            r@.len() == j,
            mult == world_multiplicity_spec(viewpoint_actor, state@),
            1 <= mult <= 576,
            forall|k: int| 0 <= k < j ==> (#[trigger] r@[k]).0@ == worlds@[k]@,
            forall|k: int|
                0 <= k < j ==> (#[trigger] r@[k]).1 == world_multiplicity_spec(
                    viewpoint_actor,
                    state@,
                ),
            forall|k: int| 0 <= k < j ==> 1 <= (#[trigger] r@[k]).1 <= 576,
        decreases worlds@.len() - j,
    {
        r.push((worlds[j].duplicate(), mult));
        j = j + 1;
    }
    proof {
        assert(r@.map_values(|w: (GeisterState, usize)| w.0@) =~= worlds@.map_values(
            |s: GeisterState| s@,
        ));
    }
    r
}

/// The sum of the exact payoffs of the first `i` worlds.
pub open spec fn payoff_total_upto(actor: Actor, ws: Seq<StateModel>, i: int) -> int
    decreases i,
{
    if i <= 0 {
        0
    } else {
        payoff_total_upto(actor, ws, i - 1) + exact_payoff_spec(actor, ws[i - 1])
    }
}

/// Integer division truncating toward zero, as the payoff average uses it.
pub open spec fn div_trunc(a: int, b: int) -> int {
    if a >= 0 {
        a / b
    } else {
        -((-a) / b)
    }
}

/// The payoff the evaluator owes: +100 or -100 on a decided game; otherwise
/// the multiplicity-weighted mean of the exact payoffs of all possible
/// worlds, truncated toward zero.
pub open spec fn evaluate_payoff_spec(actor: Actor, m: StateModel) -> int {
    match winner_spec(m) {
        Some(w) => if w == actor {
            100
        } else {
            -100
        },
        None => {
            let ws = possible_worlds_spec(actor, m);
            let mw = world_multiplicity_spec(actor, m);
            div_trunc(mw * payoff_total_upto(actor, ws, ws.len() as int), mw * ws.len())
        },
    }
}

impl GeisterEvaluator {
    /// The payoff of a state for `actor`, higher being better for it. On a
    /// decided game it is +100 or -100; otherwise it is the
    /// multiplicity-weighted mean of the exact payoff over every possible
    /// world: every kind assignment to the opponent's on-board pieces that is
    /// consistent with the kinds already revealed through capture.
    #[verifier::loop_isolation(false)]
    #[verifier::rlimit(60)]
    pub fn evaluate_payoff_for(actor: Actor, state: &GeisterState) -> (r: GeisterPayoff)
        requires
            state@.well_formed(),
            (winner_spec(state@) is None) ==> {
                &&& state@.piece_count(owned_geister(Geister::Holy, actor.opponent_spec()))
                    + state@.killed_of(owned_geister(Geister::Holy, actor.opponent_spec()))
                    == INITIAL_GEISTER_COUNT
                &&& state@.piece_count(owned_geister(Geister::Evil, actor.opponent_spec()))
                    + state@.killed_of(owned_geister(Geister::Evil, actor.opponent_spec()))
                    == INITIAL_GEISTER_COUNT
                &&& holy_positions(state@, actor).len() > 0
            },
        ensures
            r == evaluate_payoff_spec(actor, state@),
    {
        match GeisterRule::winner_of(state) {
            Some(winner) => {
                if winner == actor {
                    100
                } else {
                    -100
                }
            },
            None => {
                let ghost m = state@;
                let ghost opp = actor.opponent_spec();
                let ghost ps = hidden_positions(actor, m);
                let ghost wsm = possible_worlds_spec(actor, m);
                let ghost hh = hidden_holy_count(actor, m);
                proof {
                    lemma_owner_positions_len(m.board, opp, 0);
                    lemma_count_owned_split(m.board, opp, 0);
                    lemma_owner_positions_bounds(m.board, opp, 0);
                    lemma_owner_positions_distinct(m.board, opp, 0);
                    lemma_worlds_from_properties(
                        m,
                        opp,
                        ps,
                        0,
                        hh,
                        hidden_evil_count(actor, m),
                    );
                    assert forall|og: OwnedGeister| #[trigger] m.killed_of(og)
                        <= INITIAL_GEISTER_COUNT by {
                        assert(og == owned_geister(og.geister, og.owner));
                    }
                    assert forall|wi: int| 0 <= wi < wsm.len() implies {
                        let w = #[trigger] wsm[wi];
                        &&& w.board.len() == FIELD_WIDTH * FIELD_HEIGHT
                        &&& (forall|og: OwnedGeister| #[trigger] w.killed_of(og)
                            <= INITIAL_GEISTER_COUNT)
                        &&& winner_spec(w) == winner_spec(m)
                        &&& holy_positions(w, actor).len() > 0
                        &&& holy_positions(w, actor.opponent_spec()).len() > 0
                    } by {
                        let w = wsm[wi];
                        assert(world_ok(m, opp, ps, 0, hh, w));
                        assert forall|og: OwnedGeister| #[trigger] w.killed_of(og)
                            <= INITIAL_GEISTER_COUNT by {
                            assert(og == owned_geister(og.geister, og.owner));
                            assert(w.killed_of(og) == m.killed_of(og));
                        }
                        let holy_own = owned_geister(Geister::Holy, actor);
                        assert forall|j: int| 0 <= j < m.board.len() implies ((#[trigger] m.board[j]
                            == Some(holy_own)) <==> (w.board[j] == Some(holy_own))) by {
                            if covers_from(ps, 0, j) {
                                let k = choose|k: int|
                                    0 <= k < ps.len() && cell_index(ps[k]) == j;
                                assert(cell_owned_by(m.board[cell_index(ps[k])], opp));
                                assert(cell_owned_by(w.board[cell_index(ps[k])], opp));
                            }
                        }
                        lemma_og_positions_pointwise(m.board, w.board, holy_own, 0);
                        let holy_opp = owned_geister(Geister::Holy, opp);
                        assert(m.killed_of(holy_opp) < INITIAL_GEISTER_COUNT);
                        assert(hh >= 1);
                        let k = choose|k: int|
                            0 <= k < ps.len() && cell_index(ps[k]) < m.board.len()
                                && w.board[cell_index(ps[k])] == Some(holy_opp);
                        assert(in_field(ps[k]));
                        lemma_og_positions_contains(w.board, holy_opp, ps[k], 0);
                    }
                }
                let possible = iterate_possible_states(actor, state);
                let mut weighted: i32 = 0;
                let mut weight: usize = 0;
                let mut i: usize = 0;
                while i < possible.len()
                    invariant
                        i <= possible@.len(),
                        weighted as int == world_multiplicity_spec(actor, m) * payoff_total_upto(
                            actor,
                            wsm,
                            i as int,
                        ),
                        -172800 * (i as int) <= weighted as int <= 172800 * (i as int),
                        weight as int == world_multiplicity_spec(actor, m) * (i as int),
                        weight <= 147456,
                    decreases possible@.len() - i,
                {
                    let pair = &possible[i];
                    let cnt = pair.1;
                    proof {
                        assert(possible@.map_values(|w: (GeisterState, usize)| w.0@)[i as int]
                            == wsm[i as int]);
                        assert(pair.0@ == wsm[i as int]);
                    }
                    let w_payoff = evaluate_payoff_for_exact_state(actor, &pair.0);
                    proof {
                        let mwv = world_multiplicity_spec(actor, m);
                        let t0 = payoff_total_upto(actor, wsm, i as int);
                        let ex = exact_payoff_spec(actor, wsm[i as int]);
                        assert(payoff_total_upto(actor, wsm, i + 1) == t0 + ex);
                        assert(cnt == mwv);
                        assert(w_payoff == ex);
                        assert((w_payoff as int) * (cnt as int) == mwv * ex) by (nonlinear_arith)
                            requires
                                w_payoff as int == ex,
                                cnt as int == mwv,
                        ;
                        assert(-172800 <= (w_payoff as int) * (cnt as int) <= 172800)
                            by (nonlinear_arith)
                            requires
                                -300 <= w_payoff <= 300,
                                0 <= cnt <= 576,
                        ;
                        assert(mwv * (t0 + ex) == mwv * t0 + mwv * ex) by (nonlinear_arith);
                        assert(mwv * ((i + 1) as int) == mwv * (i as int) + mwv)
                            by (nonlinear_arith);
                        assert(mwv * ((i + 1) as int) <= 147456) by (nonlinear_arith)
                            requires
                                1 <= mwv <= 576,
                                i + 1 <= 256,
                        ;
                    }
                    weighted = weighted + w_payoff * (cnt as i32);
                    weight = weight + cnt;
                    i = i + 1;
                }
                proof {
                    let mwv = world_multiplicity_spec(actor, m);
                    assert(weight as int >= 1) by (nonlinear_arith)
                        requires
                            weight as int == mwv * (wsm.len() as int),
                            mwv >= 1,
                            wsm.len() >= 1,
                    ;
                }
                if weighted >= 0 {
                    ((weighted as u32) / (weight as u32)) as i32
                } else {
                    let magnitude = ((-weighted) as u32) / (weight as u32);
                    -(magnitude as i32)
                }
            },
        }
    }
}

} // verus!
