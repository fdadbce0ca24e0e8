//! The immutable game-state model: the board, the kill counters and the exit
//! marker, together with the mathematical model that the contracts speak of.

use vstd::prelude::*;
use crate::actor::Actor;

verus! {

/// Width of the game field, in cells.
pub const FIELD_WIDTH: usize = 6;

/// Height of the game field, in cells.
pub const FIELD_HEIGHT: usize = 6;

/// How many pieces of each (kind, owner) pair stand on the field at the start.
pub const INITIAL_GEISTER_COUNT: usize = 4;

/// The kind of a piece on the field.
#[derive(Debug, Clone, Copy, PartialEq, Eq, Hash, Structural)]
pub enum Geister {
    /// A good piece: it may leave the field through its owner's exit cell.
    Holy,
    /// An evil piece.
    Evil,
}

/// A piece kind together with the actor that owns it.
#[derive(Debug, Clone, Copy, PartialEq, Eq, Hash, Structural)]
pub struct OwnedGeister {
    pub geister: Geister,
    pub owner: Actor,
}

/// The (kind, owner) pair as a spec-level value.
pub open spec fn owned_geister(geister: Geister, owner: Actor) -> OwnedGeister {
    OwnedGeister { geister, owner }
}

impl OwnedGeister {
    pub fn new(geister: Geister, owner: Actor) -> (r: Self)
        ensures
            r == owned_geister(geister, owner),
    {
        Self { geister, owner }
    }
}

/// Both piece kinds, in the fixed order used wherever the rules enumerate kinds.
pub fn geisters() -> (r: [Geister; 2])
    ensures
        r@ == seq![Geister::Evil, Geister::Holy],
{
    let r = [Geister::Evil, Geister::Holy];
    proof {
        assert(r@ =~= seq![Geister::Evil, Geister::Holy]);
    }
    r
}

/// A cell of the game field, addressed by column `x` and row `y`.
#[derive(Debug, Clone, Copy, PartialEq, Eq, Hash, Structural)]
pub struct TableIndex {
    pub x: usize,
    pub y: usize,
}

impl TableIndex {
    pub fn new(x: usize, y: usize) -> (r: Self)
        ensures
            r == (TableIndex { x, y }),
    {
        Self { x, y }
    }
}

/// Whether a cell lies on the field.
pub open spec fn in_field(p: TableIndex) -> bool {
    p.x < FIELD_WIDTH && p.y < FIELD_HEIGHT
}

/// The row-major position of a cell in the flat board sequence.
pub open spec fn cell_index(p: TableIndex) -> int {
    p.y * FIELD_WIDTH + p.x
}

/// The cell at a row-major position of the flat board sequence.
pub open spec fn index_to_pos(i: int) -> TableIndex {
    TableIndex { x: (i % (FIELD_WIDTH as int)) as usize, y: (i / (FIELD_WIDTH as int)) as usize }
}

/// Whether a cell holds a piece of the given owner.
pub open spec fn cell_owned_by(cell: Option<OwnedGeister>, owner: Actor) -> bool {
    match cell {
        Some(g) => g.owner == owner,
        None => false,
    }
}

/// The mathematical model of a game state: the flat row-major board, the four
/// kill counters and the exit marker.
#[verifier::ext_equal]
pub struct StateModel {
    pub board: Seq<Option<OwnedGeister>>,
    pub killed_holy_first: nat,
    pub killed_evil_first: nat,
    pub killed_holy_second: nat,
    pub killed_evil_second: nat,
    pub cleared: Option<Actor>,
}

impl StateModel {
    /// The kill counter of a (kind, owner) pair.
    pub open spec fn killed_of(self, og: OwnedGeister) -> nat {
        match (og.geister, og.owner) {
            (Geister::Holy, Actor::First) => self.killed_holy_first,
            (Geister::Evil, Actor::First) => self.killed_evil_first,
            (Geister::Holy, Actor::Second) => self.killed_holy_second,
            (Geister::Evil, Actor::Second) => self.killed_evil_second,
        }
    }

    /// The occupant of a cell.
    pub open spec fn cell(self, p: TableIndex) -> Option<OwnedGeister> {
        self.board[cell_index(p)]
    }

    /// How many pieces of a (kind, owner) pair stand on the board.
    pub open spec fn piece_count(self, og: OwnedGeister) -> nat {
        count_of_from(self.board, og, 0)
    }

    /// Accounting for one (kind, owner) pair: the pieces on the board and the
    /// captured ones never exceed the initial allotment.
    pub open spec fn accounted(self, og: OwnedGeister) -> bool {
        self.piece_count(og) + self.killed_of(og) <= INITIAL_GEISTER_COUNT
    }

    /// The state invariant: the board has its fixed size and every
    /// (kind, owner) pair is accounted for.
    pub open spec fn well_formed(self) -> bool {
        &&& self.board.len() == FIELD_WIDTH * FIELD_HEIGHT
        &&& self.accounted(owned_geister(Geister::Holy, Actor::First))
        &&& self.accounted(owned_geister(Geister::Evil, Actor::First))
        &&& self.accounted(owned_geister(Geister::Holy, Actor::Second))
        &&& self.accounted(owned_geister(Geister::Evil, Actor::Second))
    }
}

/// How many cells at row-major positions `i` and beyond hold exactly `og`.
pub open spec fn count_of_from(board: Seq<Option<OwnedGeister>>, og: OwnedGeister, i: int) -> nat
    decreases board.len() - i,
{
    if i < 0 || i >= board.len() {
        0
    } else {
        (if board[i] == Some(og) {
            1nat
        } else {
            0nat
        }) + count_of_from(board, og, i + 1)
    }
}

/// How many cells at row-major positions `i` and beyond hold a piece of `owner`.
pub open spec fn count_owned_from(board: Seq<Option<OwnedGeister>>, owner: Actor, i: int) -> nat
    decreases board.len() - i,
{
    if i < 0 || i >= board.len() {
        0
    } else {
        (if cell_owned_by(board[i], owner) {
            1nat
        } else {
            0nat
        }) + count_owned_from(board, owner, i + 1)
    }
}

/// The cells at row-major positions `i` and beyond that hold exactly `og`,
/// in row-major order.
pub open spec fn og_positions_from(
    board: Seq<Option<OwnedGeister>>,
    og: OwnedGeister,
    i: int,
) -> Seq<TableIndex>
    decreases board.len() - i,
{
    if i < 0 || i >= board.len() {
        Seq::empty()
    } else if board[i] == Some(og) {
        seq![index_to_pos(i)] + og_positions_from(board, og, i + 1)
    } else {
        og_positions_from(board, og, i + 1)
    }
}

/// The cells at row-major positions `i` and beyond that hold a piece of
/// `owner`, in row-major order.
pub open spec fn owner_positions_from(
    board: Seq<Option<OwnedGeister>>,
    owner: Actor,
    i: int,
) -> Seq<TableIndex>
    decreases board.len() - i,
{
    if i < 0 || i >= board.len() {
        Seq::empty()
    } else if cell_owned_by(board[i], owner) {
        seq![index_to_pos(i)] + owner_positions_from(board, owner, i + 1)
    } else {
        owner_positions_from(board, owner, i + 1)
    }
}

/// The state of a game of Geister. A value of this type is an immutable
/// snapshot: the rule engine never mutates a state that a caller holds, it
/// produces new ones.
#[derive(Debug, Clone, PartialEq, Eq)]
pub struct GeisterState {
    /// The pieces on the field, row-major: the cell (x, y) stands at position
    /// `y * FIELD_WIDTH + x`.
    pub lattices: Vec<Option<OwnedGeister>>,
    /// How many good pieces of the first actor were captured.
    pub killed_holy_first: usize,
    /// How many evil pieces of the first actor were captured.
    pub killed_evil_first: usize,
    /// How many good pieces of the second actor were captured.
    pub killed_holy_second: usize,
    /// How many evil pieces of the second actor were captured.
    pub killed_evil_second: usize,
    /// The owner of a good piece that left the field through its exit cell.
    /// `Some` means the game is over.
    pub actor_of_cleared_geister: Option<Actor>,
}

impl View for GeisterState {
    type V = StateModel;

    open spec fn view(&self) -> StateModel {
        StateModel {
            board: self.lattices@,
            killed_holy_first: self.killed_holy_first as nat,
            killed_evil_first: self.killed_evil_first as nat,
            killed_holy_second: self.killed_holy_second as nat,
            killed_evil_second: self.killed_evil_second as nat,
            cleared: self.actor_of_cleared_geister,
        }
    }
}

/// The row-major position of an on-field cell, as a machine integer.
pub fn flat_index(p: TableIndex) -> (r: usize)
    requires
        in_field(p),
    ensures
        r == cell_index(p),
        r < FIELD_WIDTH * FIELD_HEIGHT,
{
    p.y * FIELD_WIDTH + p.x
}

/// Two distinct on-field cells have distinct row-major positions.
pub proof fn lemma_cell_index_injective(p: TableIndex, q: TableIndex)
    requires
        in_field(p),
        in_field(q),
        cell_index(p) == cell_index(q),
    ensures
        p == q,
{
}

/// A row-major position below the board size names an on-field cell.
pub proof fn lemma_index_to_pos_in_field(i: int)
    requires
        0 <= i < FIELD_WIDTH * FIELD_HEIGHT,
    ensures
        in_field(index_to_pos(i)),
        cell_index(index_to_pos(i)) == i,
{
    let w = FIELD_WIDTH as int;
    vstd::arithmetic::div_mod::lemma_fundamental_div_mod(i, w);
    vstd::arithmetic::div_mod::lemma_mod_bound(i, w);
    vstd::arithmetic::div_mod::lemma_div_pos_is_pos(i, w);
    if i / w >= FIELD_HEIGHT {
        vstd::arithmetic::div_mod::lemma_fundamental_div_mod(i, w);
        assert(i == w * (i / w) + i % w);
        assert(w * (i / w) >= w * (FIELD_HEIGHT as int)) by (nonlinear_arith)
            requires
                i / w >= FIELD_HEIGHT,
                w > 0,
        ;
    }
}

/// The cell of a row-major position names that position back.
pub proof fn lemma_index_roundtrip(p: TableIndex)
    requires
        in_field(p),
    ensures
        index_to_pos(cell_index(p)) == p,
{
    let w = FIELD_WIDTH as int;
    vstd::arithmetic::div_mod::lemma_fundamental_div_mod_converse(
        cell_index(p),
        w,
        p.y as int,
        p.x as int,
    );
}

/// How an update of one board cell changes the census of a (kind, owner) pair.
pub proof fn lemma_count_of_update_from(
    board: Seq<Option<OwnedGeister>>,
    og: OwnedGeister,
    j: int,
    v: Option<OwnedGeister>,
    i: int,
)
    requires
        0 <= j < board.len(),
        0 <= i,
    ensures
        i <= j ==> count_of_from(board.update(j, v), og, i) == count_of_from(board, og, i) - (
        if board[j] == Some(og) {
            1int
        } else {
            0int
        }) + (if v == Some(og) {
            1int
        } else {
            0int
        }),
        i > j ==> count_of_from(board.update(j, v), og, i) == count_of_from(board, og, i),
    decreases board.len() - i,
{
    if i < board.len() {
        lemma_count_of_update_from(board, og, j, v, i + 1);
    }
}

/// A board without any piece of a (kind, owner) pair counts none of them.
pub proof fn lemma_count_of_zero_from(board: Seq<Option<OwnedGeister>>, og: OwnedGeister, i: int)
    requires
        forall|j: int| i <= j < board.len() ==> board[j] != Some(og),
    ensures
        count_of_from(board, og, i) == 0,
    decreases board.len() - i,
{
    if 0 <= i < board.len() {
        lemma_count_of_zero_from(board, og, i + 1);
    }
}

/// The pieces an owner has on the board are its good ones and its evil ones.
pub proof fn lemma_count_owned_split(board: Seq<Option<OwnedGeister>>, owner: Actor, i: int)
    ensures
        count_owned_from(board, owner, i) == count_of_from(
            board,
            owned_geister(Geister::Holy, owner),
            i,
        ) + count_of_from(board, owned_geister(Geister::Evil, owner), i),
    decreases board.len() - i,
{
    if i < 0 || i >= board.len() {
    } else {
        lemma_count_owned_split(board, owner, i + 1);
        match board[i] {
            Some(g) => {
                assert(g == owned_geister(g.geister, g.owner));
            },
            None => {},
        }
    }
}

/// A board region fully owned by one actor counts one piece per cell.
pub proof fn lemma_count_owned_full(board: Seq<Option<OwnedGeister>>, owner: Actor, i: int)
    requires
        0 <= i <= board.len(),
        forall|j: int| i <= j < board.len() ==> cell_owned_by(#[trigger] board[j], owner),
    ensures
        count_owned_from(board, owner, i) == board.len() - i,
    decreases board.len() - i,
{
    if i < board.len() {
        lemma_count_owned_full(board, owner, i + 1);
    }
}

/// The row-major list of an owner's cells has one entry per piece on the
/// board.
pub proof fn lemma_owner_positions_len(board: Seq<Option<OwnedGeister>>, owner: Actor, i: int)
    ensures
        owner_positions_from(board, owner, i).len() == count_owned_from(board, owner, i),
    decreases board.len() - i,
{
    if i < 0 || i >= board.len() {
    } else {
        lemma_owner_positions_len(board, owner, i + 1);
    }
}

/// The listed cells of an owner lie on the field, at or after the starting
/// position, and each holds a piece of that owner.
pub proof fn lemma_owner_positions_bounds(board: Seq<Option<OwnedGeister>>, owner: Actor, i: int)
    requires
        board.len() == FIELD_WIDTH * FIELD_HEIGHT,
    ensures
        forall|k: int|
            0 <= k < owner_positions_from(board, owner, i).len() ==> {
                let p = #[trigger] owner_positions_from(board, owner, i)[k];
                &&& in_field(p)
                &&& i <= cell_index(p) < board.len()
                &&& cell_owned_by(board[cell_index(p)], owner)
            },
    decreases board.len() - i,
{
    if i < 0 || i >= board.len() {
    } else {
        lemma_owner_positions_bounds(board, owner, i + 1);
        lemma_index_to_pos_in_field(i);
        let s = owner_positions_from(board, owner, i);
        let t = owner_positions_from(board, owner, i + 1);
        assert forall|k: int| 0 <= k < s.len() implies {
            let p = #[trigger] s[k];
            &&& in_field(p)
            &&& i <= cell_index(p) < board.len()
            &&& cell_owned_by(board[cell_index(p)], owner)
        } by {
            if cell_owned_by(board[i], owner) {
                if k == 0 {
                    assert(s[0] == index_to_pos(i));
                } else {
                    assert(s[k] == t[k - 1]);
                }
            } else {
                assert(s[k] == t[k]);
            }
        }
    }
}

/// The listed cells of an owner are pairwise distinct.
pub proof fn lemma_owner_positions_distinct(board: Seq<Option<OwnedGeister>>, owner: Actor, i: int)
    requires
        board.len() == FIELD_WIDTH * FIELD_HEIGHT,
    ensures
        forall|k1: int, k2: int|
            0 <= k1 < k2 < owner_positions_from(board, owner, i).len()
                ==> #[trigger] owner_positions_from(board, owner, i)[k1]
                != #[trigger] owner_positions_from(board, owner, i)[k2],
    decreases board.len() - i,
{
    if i < 0 || i >= board.len() {
    } else {
        lemma_owner_positions_distinct(board, owner, i + 1);
        lemma_owner_positions_bounds(board, owner, i + 1);
        lemma_index_to_pos_in_field(i);
        let s = owner_positions_from(board, owner, i);
        let t = owner_positions_from(board, owner, i + 1);
        if cell_owned_by(board[i], owner) {
            assert forall|k1: int, k2: int| 0 <= k1 < k2 < s.len() implies #[trigger] s[k1]
                != #[trigger] s[k2] by {
                if k1 == 0 {
                    assert(s[k2] == t[k2 - 1]);
                    assert(cell_index(s[k2]) >= i + 1);
                    assert(cell_index(s[0]) == i);
                } else {
                    assert(s[k1] == t[k1 - 1]);
                    assert(s[k2] == t[k2 - 1]);
                }
            }
        }
    }
}

/// The listed cells of a (kind, owner) pair lie on the field.
pub proof fn lemma_og_positions_in_field(board: Seq<Option<OwnedGeister>>, og: OwnedGeister, i: int)
    requires
        board.len() == FIELD_WIDTH * FIELD_HEIGHT,
    ensures
        forall|k: int|
            0 <= k < og_positions_from(board, og, i).len() ==> in_field(
                #[trigger] og_positions_from(board, og, i)[k],
            ),
    decreases board.len() - i,
{
    if i < 0 || i >= board.len() {
    } else {
        lemma_og_positions_in_field(board, og, i + 1);
        lemma_index_to_pos_in_field(i);
        let s = og_positions_from(board, og, i);
        let t = og_positions_from(board, og, i + 1);
        assert forall|k: int| 0 <= k < s.len() implies in_field(#[trigger] s[k]) by {
            if board[i] == Some(og) {
                if k == 0 {
                    assert(s[0] == index_to_pos(i));
                } else {
                    assert(s[k] == t[k - 1]);
                }
            } else {
                assert(s[k] == t[k]);
            }
        }
    }
}

/// Two boards on which a pair occupies exactly the same cells list the same
/// positions for it.
pub proof fn lemma_og_positions_pointwise(
    b1: Seq<Option<OwnedGeister>>,
    b2: Seq<Option<OwnedGeister>>,
    og: OwnedGeister,
    i: int,
)
    requires
        b1.len() == b2.len(),
        forall|j: int| 0 <= j < b1.len() ==> ((#[trigger] b1[j] == Some(og)) <==> (b2[j] == Some(
            og,
        ))),
    ensures
        og_positions_from(b1, og, i) == og_positions_from(b2, og, i),
    decreases b1.len() - i,
{
    if i < 0 || i >= b1.len() {
    } else {
        lemma_og_positions_pointwise(b1, b2, og, i + 1);
    }
}

/// A cell holding a pair's piece stands in the pair's position list.
pub proof fn lemma_og_positions_contains(
    board: Seq<Option<OwnedGeister>>,
    og: OwnedGeister,
    p: TableIndex,
    i: int,
)
    requires
        board.len() == FIELD_WIDTH * FIELD_HEIGHT,
        in_field(p),
        0 <= i <= cell_index(p),
        board[cell_index(p)] == Some(og),
    ensures
        og_positions_from(board, og, i).contains(p),
    decreases board.len() - i,
{
    let s = og_positions_from(board, og, i);
    let t = og_positions_from(board, og, i + 1);
    if i == cell_index(p) {
        lemma_index_roundtrip(p);
        assert(s[0] == p);
    } else {
        lemma_og_positions_contains(board, og, p, i + 1);
        let w = choose|w: int| 0 <= w < t.len() && t[w] == p;
        if board[i] == Some(og) {
            assert(s[w + 1] == p);
        }
    }
}

/// Whether some cell of `ps` has the row-major position `j`.
pub open spec fn covers(ps: Seq<TableIndex>, j: int) -> bool {
    exists|k: int| 0 <= k < ps.len() && cell_index(ps[k]) == j
}

/// The model after one kill counter is raised by one.
pub open spec fn bump_killed(m: StateModel, og: OwnedGeister) -> StateModel {
    match (og.geister, og.owner) {
        (Geister::Holy, Actor::First) => StateModel {
            killed_holy_first: m.killed_holy_first + 1,
            ..m
        },
        (Geister::Evil, Actor::First) => StateModel {
            killed_evil_first: m.killed_evil_first + 1,
            ..m
        },
        (Geister::Holy, Actor::Second) => StateModel {
            killed_holy_second: m.killed_holy_second + 1,
            ..m
        },
        (Geister::Evil, Actor::Second) => StateModel {
            killed_evil_second: m.killed_evil_second + 1,
            ..m
        },
    }
}

/// The model after the piece on a cell, if any, is removed by capture: the
/// cell is cleared and the piece's kill counter is raised.
pub open spec fn kill_at_spec(m: StateModel, p: TableIndex) -> StateModel {
    match m.cell(p) {
        Some(og) => StateModel {
            board: m.board.update(cell_index(p), None),
            ..bump_killed(m, og)
        },
        None => m,
    }
}

/// A (kind, owner) pair whose pieces all stand on cells of `ps` has at most
/// `ps.len()` pieces on the board.
pub proof fn lemma_count_bounded(
    board: Seq<Option<OwnedGeister>>,
    og: OwnedGeister,
    ps: Seq<TableIndex>,
)
    requires
        forall|j: int| 0 <= j < board.len() && board[j] == Some(og) ==> covers(ps, j),
    ensures
        count_of_from(board, og, 0) <= ps.len(),
    decreases ps.len(),
{
    if ps.len() == 0 {
        assert forall|j: int| 0 <= j < board.len() implies board[j] != Some(og) by {
            if board[j] == Some(og) {
                assert(covers(ps, j));
            }
        }
        lemma_count_of_zero_from(board, og, 0);
    } else {
        let j0 = cell_index(ps[0]);
        let rest = ps.drop_first();
        if 0 <= j0 < board.len() {
            let b2 = board.update(j0, None);
            assert forall|j: int| 0 <= j < b2.len() && b2[j] == Some(og) implies covers(
                rest,
                j,
            ) by {
                assert(j != j0);
                assert(board[j] == Some(og));
                assert(covers(ps, j));
                let k = choose|k: int| 0 <= k < ps.len() && cell_index(ps[k]) == j;
                assert(k != 0);
                assert(0 <= k - 1 < rest.len() && cell_index(rest[k - 1]) == j);
            }
            lemma_count_bounded(b2, og, rest);
            lemma_count_of_update_from(board, og, j0, None, 0);
        } else {
            assert forall|j: int| 0 <= j < board.len() && board[j] == Some(og) implies covers(
                rest,
                j,
            ) by {
                let k = choose|k: int| 0 <= k < ps.len() && cell_index(ps[k]) == j;
                assert(k != 0);
                assert(0 <= k - 1 < rest.len() && cell_index(rest[k - 1]) == j);
            }
            lemma_count_bounded(board, og, rest);
        }
    }
}

/// A caller-supplied initial placement: for every (kind, owner) pair, the
/// cells its pieces start on.
#[derive(Debug, Clone, PartialEq, Eq)]
pub struct InitialPlacement {
    pub holy_first: Vec<TableIndex>,
    pub evil_first: Vec<TableIndex>,
    pub holy_second: Vec<TableIndex>,
    pub evil_second: Vec<TableIndex>,
}

impl InitialPlacement {
    /// The cells assigned to one (kind, owner) pair.
    pub open spec fn positions_for(self, og: OwnedGeister) -> Seq<TableIndex> {
        match (og.geister, og.owner) {
            (Geister::Holy, Actor::First) => self.holy_first@,
            (Geister::Evil, Actor::First) => self.evil_first@,
            (Geister::Holy, Actor::Second) => self.holy_second@,
            (Geister::Evil, Actor::Second) => self.evil_second@,
        }
    }

    /// Whether some pair's pieces start on the cell `p`.
    pub open spec fn places_on(self, p: TableIndex) -> bool {
        exists|og: OwnedGeister| (#[trigger] self.positions_for(og)).contains(p)
    }

    /// A valid configuration: every pair has exactly the initial piece count
    /// of cells, all cells lie on the field, and no cell is used twice.
    pub open spec fn valid(self) -> bool {
        &&& forall|og: OwnedGeister|
            (#[trigger] self.positions_for(og)).len() == INITIAL_GEISTER_COUNT
        &&& forall|og: OwnedGeister, i: int|
            0 <= i < self.positions_for(og).len() ==> in_field(#[trigger] self.positions_for(og)[i])
        &&& forall|og1: OwnedGeister, og2: OwnedGeister, i: int, j: int|
            0 <= i < self.positions_for(og1).len() && 0 <= j < self.positions_for(og2).len() && (og1
                != og2 || i != j) ==> #[trigger] self.positions_for(og1)[i]
                != #[trigger] self.positions_for(og2)[j]
    }
}

/// The cells an actor may place its pieces on at the start of a game: its
/// two back rows, without the two outermost columns, column by column.
pub open spec fn initial_area_seq(actor: Actor) -> Seq<TableIndex> {
    match actor {
        Actor::First => seq![
            TableIndex { x: 1, y: 4 },
            TableIndex { x: 1, y: 5 },
            TableIndex { x: 2, y: 4 },
            TableIndex { x: 2, y: 5 },
            TableIndex { x: 3, y: 4 },
            TableIndex { x: 3, y: 5 },
            TableIndex { x: 4, y: 4 },
            TableIndex { x: 4, y: 5 },
        ],
        Actor::Second => seq![
            TableIndex { x: 1, y: 0 },
            TableIndex { x: 1, y: 1 },
            TableIndex { x: 2, y: 0 },
            TableIndex { x: 2, y: 1 },
            TableIndex { x: 3, y: 0 },
            TableIndex { x: 3, y: 1 },
            TableIndex { x: 4, y: 0 },
            TableIndex { x: 4, y: 1 },
        ],
    }
}

/// Returns the cells an actor may place its pieces on at the start of a
/// game, in the fixed enumeration order.
pub fn available_initial_positions(actor: Actor) -> (r: Vec<TableIndex>)
    ensures
        r@ == initial_area_seq(actor),
{
    let rows: [usize; 2] = match actor {
        Actor::First => [FIELD_HEIGHT - 2, FIELD_HEIGHT - 1],
        Actor::Second => [0, 1],
    };
    let mut r: Vec<TableIndex> = Vec::new();
    let mut x: usize = 1;
    while x < FIELD_WIDTH - 1
        invariant
            1 <= x <= FIELD_WIDTH - 1,
            r@.len() == 2 * (x - 1),
            rows@.len() == 2,
            rows@[0] == (match actor {
                Actor::First => (FIELD_HEIGHT - 2) as usize,
                Actor::Second => 0usize,
            }),
            rows@[1] == (match actor {
                Actor::First => (FIELD_HEIGHT - 1) as usize,
                Actor::Second => 1usize,
            }),
            forall|k: int|
                0 <= k < r@.len() ==> #[trigger] r@[k] == initial_area_seq(actor)[k],
        decreases FIELD_WIDTH - x,
    {
        r.push(TableIndex::new(x, rows[0]));
        r.push(TableIndex::new(x, rows[1]));
        x = x + 1;
    }
    proof {
        assert(r@ =~= initial_area_seq(actor));
    }
    r
}

/// Writes `Some(og)` into every cell of `positions`; all other cells keep
/// what they held.
fn place_pieces(lattices: &mut Vec<Option<OwnedGeister>>, positions: &Vec<TableIndex>, og: OwnedGeister)
    requires
        forall|i: int| 0 <= i < positions@.len() ==> in_field(#[trigger] positions@[i]),
    ensures
        final(lattices)@.len() == old(lattices)@.len(),
        forall|j: int|
            0 <= j < old(lattices)@.len() && !covers(positions@, j) ==> final(lattices)@[j] == old(
                lattices,
            )@[j],
        forall|i: int|
            0 <= i < positions@.len() && cell_index(positions@[i]) < old(lattices)@.len()
                ==> final(lattices)@[cell_index(#[trigger] positions@[i])] == Some(og),
{
    let ghost orig = lattices@;
    let mut k: usize = 0;
    while k < positions.len()
        invariant
            k <= positions@.len(),
            forall|i: int| 0 <= i < positions@.len() ==> in_field(#[trigger] positions@[i]),
            lattices@.len() == orig.len(),
            forall|j: int|
                0 <= j < orig.len() && !covers(positions@.take(k as int), j) ==> lattices@[j]
                    == orig[j],
            forall|i: int|
                0 <= i < k && cell_index(positions@[i]) < orig.len() ==> lattices@[cell_index(
                    #[trigger] positions@[i],
                )] == Some(og),
        decreases positions@.len() - k,
    {
        let p = positions[k];
        let c = flat_index(p);
        if c < lattices.len() {
            lattices[c] = Some(og);
        }
        proof {
            let taken = positions@.take(k as int);
            let taken2 = positions@.take(k + 1 as int);
            assert(taken2 =~= taken.push(positions@[k as int]));
            assert forall|j: int|
                0 <= j < orig.len() && !covers(taken2, j) implies lattices@[j] == orig[j] by {
                if covers(taken, j) {
                    let w = choose|w: int| 0 <= w < taken.len() && cell_index(taken[w]) == j;
                    assert(taken2[w] == taken[w]);
                    assert(covers(taken2, j));
                } else {
                    assert(cell_index(taken2[k as int]) == cell_index(p));
                    assert(j != cell_index(p) ==> lattices@[j] == orig[j]);
                }
            }
        }
        k = k + 1;
    }
    proof {
        assert(positions@.take(positions@.len() as int) =~= positions@);
    }
}

impl GeisterState {
    /// Builds the state at the start of a game from a valid initial placement:
    /// the placed board, every kill counter at zero, and no exit marker.
    pub fn create_initial_state(initial_geister_positions: InitialPlacement) -> (r: Self)
        requires
            initial_geister_positions.valid(),
        ensures
            r@.well_formed(),
            (r@.cleared is None),
            forall|og: OwnedGeister| #[trigger] r@.killed_of(og) == 0,
            forall|og: OwnedGeister, i: int|
                0 <= i < initial_geister_positions.positions_for(og).len() ==> r@.cell(
                    #[trigger] initial_geister_positions.positions_for(og)[i],
                ) == Some(og),
            forall|p: TableIndex|
                in_field(p) && !initial_geister_positions.places_on(p) ==> (#[trigger] r@.cell(p)
                    is None),
    {
        let placement = initial_geister_positions;
        let mut lattices: Vec<Option<OwnedGeister>> = Vec::new();
        while lattices.len() < FIELD_WIDTH * FIELD_HEIGHT
            invariant
                lattices@.len() <= FIELD_WIDTH * FIELD_HEIGHT,
                forall|j: int| 0 <= j < lattices@.len() ==> lattices@[j] is None,
            decreases FIELD_WIDTH * FIELD_HEIGHT - lattices@.len(),
        {
            lattices.push(None);
        }
        let ghost blank = lattices@;
        let ghost ef = owned_geister(Geister::Evil, Actor::First);
        let ghost hf = owned_geister(Geister::Holy, Actor::First);
        let ghost es = owned_geister(Geister::Evil, Actor::Second);
        let ghost hs = owned_geister(Geister::Holy, Actor::Second);
        proof {
            assert(placement.positions_for(ef) == placement.evil_first@);
            assert(placement.positions_for(hf) == placement.holy_first@);
            assert(placement.positions_for(es) == placement.evil_second@);
            assert(placement.positions_for(hs) == placement.holy_second@);
            assert forall|i: int| 0 <= i < placement.evil_first@.len() implies in_field(
                #[trigger] placement.evil_first@[i],
            ) by {
                assert(placement.positions_for(ef)[i] == placement.evil_first@[i]);
            }
            assert forall|i: int| 0 <= i < placement.holy_first@.len() implies in_field(
                #[trigger] placement.holy_first@[i],
            ) by {
                assert(placement.positions_for(hf)[i] == placement.holy_first@[i]);
            }
            assert forall|i: int| 0 <= i < placement.evil_second@.len() implies in_field(
                #[trigger] placement.evil_second@[i],
            ) by {
                assert(placement.positions_for(es)[i] == placement.evil_second@[i]);
            }
            assert forall|i: int| 0 <= i < placement.holy_second@.len() implies in_field(
                #[trigger] placement.holy_second@[i],
            ) by {
                assert(placement.positions_for(hs)[i] == placement.holy_second@[i]);
            }
        }
        place_pieces(&mut lattices, &placement.evil_first, OwnedGeister::new(Geister::Evil, Actor::First));
        let ghost b1 = lattices@;
        place_pieces(&mut lattices, &placement.holy_first, OwnedGeister::new(Geister::Holy, Actor::First));
        let ghost b2 = lattices@;
        place_pieces(&mut lattices, &placement.evil_second, OwnedGeister::new(Geister::Evil, Actor::Second));
        let ghost b3 = lattices@;
        place_pieces(&mut lattices, &placement.holy_second, OwnedGeister::new(Geister::Holy, Actor::Second));
        let ghost b4 = lattices@;
        let r = GeisterState {
            lattices,
            killed_holy_first: 0,
            killed_evil_first: 0,
            killed_holy_second: 0,
            killed_evil_second: 0,
            actor_of_cleared_geister: None,
        };
        proof {
            lemma_group_preserved(placement, ef, hf, b1, b2);
            lemma_group_preserved(placement, ef, es, b2, b3);
            lemma_group_preserved(placement, hf, es, b2, b3);
            lemma_group_preserved(placement, ef, hs, b3, b4);
            lemma_group_preserved(placement, hf, hs, b3, b4);
            lemma_group_preserved(placement, es, hs, b3, b4);
            assert forall|j: int|
                0 <= j < blank.len() && !covers(placement.evil_first@, j) && !covers(
                    placement.holy_first@,
                    j,
                ) && !covers(placement.evil_second@, j) && !covers(
                    placement.holy_second@,
                    j,
                ) implies b4[j] == blank[j] by {
                assert(b1[j] == blank[j]);
                assert(b2[j] == b1[j]);
                assert(b3[j] == b2[j]);
                assert(b4[j] == b3[j]);
            }
            assert forall|og: OwnedGeister, i: int|
                0 <= i < placement.positions_for(og).len() implies b4[cell_index(
                #[trigger] placement.positions_for(og)[i],
            )] == Some(og) by {
                assert(og == owned_geister(og.geister, og.owner));
                assert(in_field(placement.positions_for(og)[i]));
                assert(cell_index(placement.positions_for(og)[i]) < blank.len());
            }
            lemma_initial_board_characterization(placement, blank, b4, ef, hf, es, hs);
            assert(r@.board == b4);
        }
        r
    }

    /// The cells holding a piece of `actor`, in row-major order.
    pub fn iterate_geister_positions_of(&self, actor: Actor) -> (r: Vec<TableIndex>)
        ensures
            r@ == owner_positions_from(self@.board, actor, 0),
    {
        let mut r: Vec<TableIndex> = Vec::new();
        let mut j: usize = 0;
        while j < self.lattices.len()
            invariant
                j <= self.lattices@.len(),
                owner_positions_from(self@.board, actor, 0) == r@ + owner_positions_from(
                    self@.board,
                    actor,
                    j as int,
                ),
            decreases self.lattices@.len() - j,
        {
            let owned_here = match self.lattices[j] {
                Some(g) => g.owner == actor,
                None => false,
            };
            if owned_here {
                let p = TableIndex::new(j % FIELD_WIDTH, j / FIELD_WIDTH);
                proof {
                    assert(p == index_to_pos(j as int));
                    assert(r@.push(p) + owner_positions_from(self@.board, actor, j + 1) =~= r@ + (
                    seq![p] + owner_positions_from(self@.board, actor, j + 1)));
                }
                r.push(p);
            }
            j = j + 1;
        }
        proof {
            assert(r@ + owner_positions_from(self@.board, actor, self.lattices@.len() as int)
                =~= r@);
        }
        r
    }

    /// The cells holding a piece of exactly the given (kind, owner) pair, in
    /// row-major order.
    pub fn iterate_owned_geister_positions(&self, owned_geister: OwnedGeister) -> (r: Vec<
        TableIndex,
    >)
        ensures
            r@ == og_positions_from(self@.board, owned_geister, 0),
    {
        let mut r: Vec<TableIndex> = Vec::new();
        let mut j: usize = 0;
        while j < self.lattices.len()
            invariant
                j <= self.lattices@.len(),
                og_positions_from(self@.board, owned_geister, 0) == r@ + og_positions_from(
                    self@.board,
                    owned_geister,
                    j as int,
                ),
            decreases self.lattices@.len() - j,
        {
            let here = match self.lattices[j] {
                Some(g) => g == owned_geister,
                None => false,
            };
            if here {
                let p = TableIndex::new(j % FIELD_WIDTH, j / FIELD_WIDTH);
                proof {
                    assert(p == index_to_pos(j as int));
                    assert(r@.push(p) + og_positions_from(self@.board, owned_geister, j + 1) =~= r@
                        + (seq![p] + og_positions_from(self@.board, owned_geister, j + 1)));
                }
                r.push(p);
            }
            j = j + 1;
        }
        proof {
            assert(r@ + og_positions_from(self@.board, owned_geister, self.lattices@.len() as int)
                =~= r@);
        }
        r
    }

    /// A fresh snapshot with the same board, counters and marker. The rule
    /// engine copies a state before deriving the next one from it.
    pub fn duplicate(&self) -> (r: GeisterState)
        ensures
            r@ == self@,
    {
        let mut lattices: Vec<Option<OwnedGeister>> = Vec::new();
        let mut j: usize = 0;
        while j < self.lattices.len()
            invariant
                j <= self.lattices@.len(),
                lattices@ == self.lattices@.take(j as int),
            decreases self.lattices@.len() - j,
        {
            lattices.push(self.lattices[j]);
            proof {
                assert(self.lattices@.take(j as int).push(self.lattices@[j as int])
                    =~= self.lattices@.take(j + 1));
            }
            j = j + 1;
        }
        let r = GeisterState {
            lattices,
            killed_holy_first: self.killed_holy_first,
            killed_evil_first: self.killed_evil_first,
            killed_holy_second: self.killed_holy_second,
            killed_evil_second: self.killed_evil_second,
            actor_of_cleared_geister: self.actor_of_cleared_geister,
        };
        proof {
            assert(self.lattices@.take(self.lattices@.len() as int) =~= self.lattices@);
            assert(r@ =~= self@);
        }
        r
    }

    /// The kill counter of a (kind, owner) pair. Always defined; zero at the
    /// start of a game.
    pub fn killed_geister_count(&self, owned_geister: OwnedGeister) -> (r: usize)
        ensures
            r == self@.killed_of(owned_geister),
    {
        match (owned_geister.geister, owned_geister.owner) {
            (Geister::Holy, Actor::First) => self.killed_holy_first,
            (Geister::Evil, Actor::First) => self.killed_evil_first,
            (Geister::Holy, Actor::Second) => self.killed_holy_second,
            (Geister::Evil, Actor::Second) => self.killed_evil_second,
        }
    }

    /// Removes the piece on `position` from the field, if one stands there,
    /// and raises its kill counter; does nothing on an empty cell. Used by the
    /// rule engine to resolve a capture.
    pub fn kill_geister_at(&mut self, position: TableIndex)
        requires
            old(self)@.well_formed(),
            in_field(position),
        ensures
            final(self)@ == kill_at_spec(old(self)@, position),
            final(self)@.well_formed(),
    {
        let idx = flat_index(position);
        match self.lattices[idx] {
            Some(killed_owned_geister) => {
                self.lattices[idx] = None;
                match (killed_owned_geister.geister, killed_owned_geister.owner) {
                    (Geister::Holy, Actor::First) => {
                        self.killed_holy_first = self.killed_holy_first + 1;
                    },
                    (Geister::Evil, Actor::First) => {
                        self.killed_evil_first = self.killed_evil_first + 1;
                    },
                    (Geister::Holy, Actor::Second) => {
                        self.killed_holy_second = self.killed_holy_second + 1;
                    },
                    (Geister::Evil, Actor::Second) => {
                        self.killed_evil_second = self.killed_evil_second + 1;
                    },
                }
                proof {
                    assert(final(self)@ =~= kill_at_spec(old(self)@, position));
                    assert forall|og: OwnedGeister| final(self)@.accounted(og) by {
                        lemma_count_of_update_from(
                            old(self)@.board,
                            og,
                            cell_index(position),
                            None,
                            0,
                        );
                        assert(old(self)@.accounted(og));
                    }
                }
            },
            None => {
                proof {
                    assert(final(self)@ =~= kill_at_spec(old(self)@, position));
                }
            },
        }
    }
}

/// A placement pass for one pair leaves the cells of a different pair as the
/// valid placement keeps them apart.
proof fn lemma_group_preserved(
    placement: InitialPlacement,
    og_a: OwnedGeister,
    og_b: OwnedGeister,
    before: Seq<Option<OwnedGeister>>,
    after: Seq<Option<OwnedGeister>>,
)
    requires
        placement.valid(),
        og_a != og_b,
        after.len() == before.len(),
        forall|j: int|
            0 <= j < before.len() && !covers(placement.positions_for(og_b), j) ==> after[j]
                == before[j],
        forall|i: int|
            0 <= i < placement.positions_for(og_a).len() && cell_index(
                placement.positions_for(og_a)[i],
            ) < before.len() ==> before[cell_index(#[trigger] placement.positions_for(og_a)[i])]
                == Some(og_a),
    ensures
        forall|i: int|
            0 <= i < placement.positions_for(og_a).len() && cell_index(
                placement.positions_for(og_a)[i],
            ) < after.len() ==> after[cell_index(#[trigger] placement.positions_for(og_a)[i])]
                == Some(og_a),
{
    assert forall|i: int|
        0 <= i < placement.positions_for(og_a).len() && cell_index(
            placement.positions_for(og_a)[i],
        ) < after.len() implies after[cell_index(#[trigger] placement.positions_for(og_a)[i])]
        == Some(og_a) by {
        let p = placement.positions_for(og_a)[i];
        let j = cell_index(p);
        if covers(placement.positions_for(og_b), j) {
            let k = choose|k: int|
                0 <= k < placement.positions_for(og_b).len() && cell_index(
                    placement.positions_for(og_b)[k],
                ) == j;
            lemma_cell_index_injective(placement.positions_for(og_b)[k], p);
            assert(false);
        }
    }
}

/// After the four placement passes over a blank board, each placed cell holds
/// its pair's piece, untouched cells stay empty, and the board is accounted.
proof fn lemma_initial_board_characterization(
    placement: InitialPlacement,
    blank: Seq<Option<OwnedGeister>>,
    board: Seq<Option<OwnedGeister>>,
    ef: OwnedGeister,
    hf: OwnedGeister,
    es: OwnedGeister,
    hs: OwnedGeister,
)
    requires
        placement.valid(),
        ef == owned_geister(Geister::Evil, Actor::First),
        hf == owned_geister(Geister::Holy, Actor::First),
        es == owned_geister(Geister::Evil, Actor::Second),
        hs == owned_geister(Geister::Holy, Actor::Second),
        blank.len() == FIELD_WIDTH * FIELD_HEIGHT,
        board.len() == blank.len(),
        forall|j: int| 0 <= j < blank.len() ==> blank[j] is None,
        // what the four placement passes guarantee together
        forall|j: int|
            0 <= j < blank.len() && !covers(placement.evil_first@, j) && !covers(
                placement.holy_first@,
                j,
            ) && !covers(placement.evil_second@, j) && !covers(placement.holy_second@, j)
                ==> board[j] == blank[j],
        forall|og: OwnedGeister, i: int|
            0 <= i < placement.positions_for(og).len() ==> board[cell_index(
                #[trigger] placement.positions_for(og)[i],
            )] == Some(og),
    ensures
        forall|og: OwnedGeister, i: int|
            0 <= i < placement.positions_for(og).len() ==> (StateModel {
                board,
                killed_holy_first: 0,
                killed_evil_first: 0,
                killed_holy_second: 0,
                killed_evil_second: 0,
                cleared: None,
            }).cell(#[trigger] placement.positions_for(og)[i]) == Some(og),
        forall|p: TableIndex|
            in_field(p) && !placement.places_on(p) ==> (board[cell_index(p)] is None),
        forall|og: OwnedGeister| count_of_from(board, og, 0) <= INITIAL_GEISTER_COUNT,
{
    assert forall|p: TableIndex|
        in_field(p) && !placement.places_on(p) implies board[cell_index(p)] is None by {
        let j = cell_index(p);
        assert(0 <= j < blank.len());
        assert forall|ps: Seq<TableIndex>, og: OwnedGeister|
            ps == placement.positions_for(og) && covers(ps, j) implies placement.places_on(p) by {
            let k = choose|k: int| 0 <= k < ps.len() && cell_index(ps[k]) == j;
            lemma_cell_index_injective(ps[k], p);
            assert(placement.positions_for(og).contains(p));
        }
        if covers(placement.evil_first@, j) {
            assert(placement.positions_for(ef) == placement.evil_first@);
        } else if covers(placement.holy_first@, j) {
            assert(placement.positions_for(hf) == placement.holy_first@);
        } else if covers(placement.evil_second@, j) {
            assert(placement.positions_for(es) == placement.evil_second@);
        } else if covers(placement.holy_second@, j) {
            assert(placement.positions_for(hs) == placement.holy_second@);
        } else {
            assert(board[j] == blank[j]);
        }
    }
    assert forall|og: OwnedGeister| count_of_from(board, og, 0) <= INITIAL_GEISTER_COUNT by {
        assert forall|j: int| 0 <= j < board.len() && board[j] == Some(og) implies covers(
            placement.positions_for(og),
            j,
        ) by {
            lemma_index_to_pos_in_field(j);
            let p = index_to_pos(j);
            if !placement.places_on(p) {
                assert(board[j] is None);
            } else {
                let og2 = choose|og2: OwnedGeister| placement.positions_for(og2).contains(p);
                let i = choose|i: int|
                    0 <= i < placement.positions_for(og2).len() && placement.positions_for(og2)[i]
                        == p;
                assert(board[cell_index(placement.positions_for(og2)[i])] == Some(og2));
                assert(og2 == og);
                assert(cell_index(placement.positions_for(og)[i]) == j);
            }
        }
        lemma_count_bounded(board, og, placement.positions_for(og));
        assert(placement.positions_for(og).len() == INITIAL_GEISTER_COUNT);
    }
}

} // verus!
