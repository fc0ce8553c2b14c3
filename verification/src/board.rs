/*!
Types to create and solve puzzles

This module defines how code can interact with a picross puzzle.
*/
use vstd::prelude::*;
use crate::binmat::BinMat;
use crate::text::{decimal, push_decimal};
use crate::utils::in_range;

verus! {

/// The smallest number of tiles a board may have (a 5 by 5 puzzle).
pub const BOARD_MIN: usize = 25;

/**
The state of a puzzle tile.

The tiles' state is used for indication/visual purposes only, it is not
tied to check if the puzzle is solved or not.
Only the tile's value is used to check if the picross is solved.
*/
#[derive(Debug, Clone, Copy, PartialEq, Structural)]
pub enum TileState {
    /// A tile's initial state
    Normal,
    /// A tile marked as not part of the solution
    Marked,
    /// A tile picked as part of the solution
    Picked,
}

/// What can go wrong when creating or playing a board.
#[derive(Debug, PartialEq, Eq, Structural)]
pub enum BoardError {
    BoardIsTooSmall,
    OutOfBounds { max: usize, val: usize },
}

impl BoardError {
    /// The human readable message of an error.
    pub open spec fn message(&self) -> Seq<char> {
        match self {
            BoardError::BoardIsTooSmall => "The requested board size is too low, must be at least 5 by 5"@,
            BoardError::OutOfBounds { max, val } => "Attempted access at #"@ + decimal(*val as nat)
                + " which is greater than max = "@ + decimal(*max as nat),
        }
    }

    /// Returns the human readable message of an error.
    pub fn to_string(&self) -> (r: String)
        ensures
            r@ == self.message(),
    {
        match self {
            BoardError::BoardIsTooSmall => String::from_str(
                "The requested board size is too low, must be at least 5 by 5",
            ),
            BoardError::OutOfBounds { max, val } => {
                let mut out = String::from_str("Attempted access at #");
                push_decimal(&mut out, *val as u64);
                out.append(" which is greater than max = ");
                push_decimal(&mut out, *max as u64);
                out
            },
        }
    }
}

/// Whether moving a tile from state `old` to state `new` flips its value:
/// only picking a normal tile and unpicking a picked one do.
pub open spec fn flips(old: TileState, new: TileState) -> bool {
    ||| old == TileState::Normal && new == TileState::Picked
    ||| old == TileState::Picked && new == TileState::Normal
}

/// The state a tile takes when it is toggle marked.
pub open spec fn mark_target(s: TileState) -> TileState {
    if s == TileState::Marked {
        TileState::Normal
    } else {
        TileState::Marked
    }
}

/// The state a tile takes when it is toggle picked.
pub open spec fn pick_target(s: TileState) -> TileState {
    if s == TileState::Picked {
        TileState::Normal
    } else {
        TileState::Picked
    }
}

/// The tile values once tile `i`, in state `states[i]`, is set to `new`.
pub open spec fn values_after(
    states: Seq<TileState>,
    values: Seq<bool>,
    i: int,
    new: TileState,
) -> Seq<bool> {
    if flips(states[i], new) {
        values.update(i, !values[i])
    } else {
        values
    }
}

/// Whether a board's tiles agree with the solution `sol` as a player who never marks
/// sees them: no tile is marked, and a tile's value is the solution's value, flipped
/// where the tile is picked.
pub open spec fn tracks_solution(
    states: Seq<TileState>,
    values: Seq<bool>,
    sol: Seq<bool>,
) -> bool {
    &&& states.len() == values.len()
    &&& values.len() == sol.len()
    &&& forall|i: int|
        0 <= i < states.len() ==> #[trigger] tile_tracks(states[i], values[i], sol[i])
}

/// Whether one tile agrees with its solution value: it is not marked, and its
/// value is the solution's, flipped when the tile is picked.
pub open spec fn tile_tracks(state: TileState, value: bool, sol: bool) -> bool {
    state != TileState::Marked && value == (sol != (state == TileState::Picked))
}

/// Whether no tile value is `true`.
pub open spec fn all_false(values: Seq<bool>) -> bool {
    forall|i: int| 0 <= i < values.len() ==> !#[trigger] values[i]
}

/// A board whose tiles are all normal tracks the solution its values hold: this is
/// the board that `Board::from_mat` builds.
pub proof fn lemma_fresh_board_tracks(states: Seq<TileState>, values: Seq<bool>)
    requires
        states.len() == values.len(),
        forall|i: int| 0 <= i < states.len() ==> #[trigger] states[i] == TileState::Normal,
    ensures
        tracks_solution(states, values, values),
{
    assert forall|i: int| 0 <= i < states.len() implies #[trigger] tile_tracks(
        states[i],
        values[i],
        values[i],
    ) by {
        assert(states[i] == TileState::Normal);
    }
}

/// Toggle picking a tile keeps a board tracking its solution.
pub proof fn lemma_pick_keeps_tracking(
    states: Seq<TileState>,
    values: Seq<bool>,
    sol: Seq<bool>,
    i: int,
)
    requires
        tracks_solution(states, values, sol),
        0 <= i < states.len(),
    ensures
        tracks_solution(
            states.update(i, pick_target(states[i])),
            values_after(states, values, i, pick_target(states[i])),
            sol,
        ),
{
    let ns = states.update(i, pick_target(states[i]));
    let nv = values_after(states, values, i, pick_target(states[i]));
    assert(nv.len() == values.len());
    assert forall|j: int| 0 <= j < ns.len() implies #[trigger] tile_tracks(ns[j], nv[j], sol[j]) by {
        assert(tile_tracks(states[j], values[j], sol[j]));
    }
}

/// On a board that tracks its solution, the puzzle is solved exactly when the
/// picked tiles are the solution's tiles.
pub proof fn lemma_solved_iff_solution_picked(
    states: Seq<TileState>,
    values: Seq<bool>,
    sol: Seq<bool>,
)
    requires
        tracks_solution(states, values, sol),
    ensures
        all_false(values) <==> forall|i: int|
            0 <= i < states.len() ==> (#[trigger] states[i] == TileState::Picked) == sol[i],
{
    if all_false(values) {
        assert forall|i: int| 0 <= i < states.len() implies (#[trigger] states[i]
            == TileState::Picked) == sol[i] by {
            assert(!values[i]);
            assert(tile_tracks(states[i], values[i], sol[i]));
        }
    }
    if forall|i: int| 0 <= i < states.len() ==> (#[trigger] states[i] == TileState::Picked)
        == sol[i] {
        assert forall|i: int| 0 <= i < values.len() implies !#[trigger] values[i] by {
            assert((states[i] == TileState::Picked) == sol[i]);
            assert(tile_tracks(states[i], values[i], sol[i]));
        }
    }
}

/// Toggle picking the same tile twice gives back its state and value, unless the
/// tile was marked.
pub proof fn lemma_pick_twice(states: Seq<TileState>, values: Seq<bool>, i: int)
    requires
        states.len() == values.len(),
        0 <= i < states.len(),
        states[i] != TileState::Marked,
    ensures
        ({
            let s1 = states.update(i, pick_target(states[i]));
            let v1 = values_after(states, values, i, pick_target(states[i]));
            &&& s1.update(i, pick_target(s1[i])) == states
            &&& values_after(s1, v1, i, pick_target(s1[i])) == values
        }),
{
    let s1 = states.update(i, pick_target(states[i]));
    let v1 = values_after(states, values, i, pick_target(states[i]));
    assert(s1.update(i, pick_target(s1[i])) =~= states);
    assert(values_after(s1, v1, i, pick_target(s1[i])) =~= values);
}

/// Toggle marking the same tile twice gives back its state, unless the tile was
/// picked (values never change when marking).
pub proof fn lemma_mark_twice(states: Seq<TileState>, i: int)
    requires
        0 <= i < states.len(),
        states[i] != TileState::Picked,
    ensures
        ({
            let s1 = states.update(i, mark_target(states[i]));
            s1.update(i, mark_target(s1[i])) == states
        }),
{
    let s1 = states.update(i, mark_target(states[i]));
    assert(s1.update(i, mark_target(s1[i])) =~= states);
}

/// The tile states and values after toggle picking the tiles of `picks`, in order.
pub open spec fn apply_picks(
    states: Seq<TileState>,
    values: Seq<bool>,
    picks: Seq<int>,
) -> (Seq<TileState>, Seq<bool>)
    decreases picks.len(),
{
    if picks.len() == 0 {
        (states, values)
    } else {
        let (s, v) = apply_picks(states, values, picks.drop_last());
        let i = picks.last();
        (s.update(i, pick_target(s[i])), values_after(s, v, i, pick_target(s[i])))
    }
}

/// Starting from a board whose tiles are all normal and whose values are the
/// solution `sol`, picking each tile of a set of distinct tiles once leaves the
/// picked tiles picked, the others normal, and the board tracking `sol`; the
/// puzzle is then solved exactly when the picked tiles are the solution's tiles.
pub proof fn lemma_picking_solves(sol: Seq<bool>, picks: Seq<int>)
    requires
        picks.no_duplicates(),
        forall|k: int| 0 <= k < picks.len() ==> 0 <= #[trigger] picks[k] < sol.len(),
    ensures
        ({
            let (s, v) = apply_picks(Seq::new(sol.len(), |i: int| TileState::Normal), sol, picks);
            &&& tracks_solution(s, v, sol)
            &&& forall|i: int| 0 <= i < sol.len() ==> (#[trigger] s[i] == TileState::Picked)
                == picks.contains(i)
            &&& all_false(v) <==> forall|i: int| 0 <= i < sol.len() ==> #[trigger] sol[i]
                == picks.contains(i)
        }),
    decreases picks.len(),
{
    let start = Seq::new(sol.len(), |i: int| TileState::Normal);
    let (s, v) = apply_picks(start, sol, picks);
    if picks.len() == 0 {
        lemma_fresh_board_tracks(start, sol);
    } else {
        let rest = picks.drop_last();
        assert forall|k: int| 0 <= k < rest.len() implies 0 <= #[trigger] rest[k] < sol.len() by {
            assert(rest[k] == picks[k]);
        }
        assert(rest.no_duplicates()) by {
            assert forall|a: int, b: int|
                0 <= a < rest.len() && 0 <= b < rest.len() && a != b implies rest[a]
                != rest[b] by {
                assert(rest[a] == picks[a] && rest[b] == picks[b]);
            }
        }
        lemma_picking_solves(sol, rest);
        let (s0, v0) = apply_picks(start, sol, rest);
        let i = picks.last();
        assert(0 <= i < sol.len());
        lemma_pick_keeps_tracking(s0, v0, sol, i);
        assert(!rest.contains(i)) by {
            if rest.contains(i) {
                let k = choose|k: int| 0 <= k < rest.len() && rest[k] == i;
                assert(picks[k] == picks[picks.len() - 1]);
            }
        }
        assert forall|j: int| 0 <= j < sol.len() implies (#[trigger] s[j] == TileState::Picked)
            == picks.contains(j) by {
            if j == i {
                assert(picks[picks.len() - 1] == j);
            } else {
                if rest.contains(j) {
                    let k = choose|k: int| 0 <= k < rest.len() && rest[k] == j;
                    assert(picks[k] == j);
                }
                if picks.contains(j) {
                    let k = choose|k: int| 0 <= k < picks.len() && picks[k] == j;
                    assert(k != picks.len() - 1);
                    assert(rest[k] == j);
                }
            }
        }
    }
    lemma_solved_iff_solution_picked(s, v, sol);
    assert(s.len() == sol.len());
    if forall|i: int| 0 <= i < s.len() ==> (#[trigger] s[i] == TileState::Picked) == sol[i] {
        assert forall|i: int| 0 <= i < sol.len() implies #[trigger] sol[i] == picks.contains(i) by {
            assert((s[i] == TileState::Picked) == sol[i]);
        }
    }
    if forall|i: int| 0 <= i < sol.len() ==> #[trigger] sol[i] == picks.contains(i) {
        assert forall|i: int| 0 <= i < s.len() implies (#[trigger] s[i] == TileState::Picked)
            == sol[i] by {
            assert(sol[i] == picks.contains(i));
        }
    }
}

/// Every well-formed board holds `width * height` tiles in each vector, at least
/// 25 of them, in at least one row of at least one tile; the operations on a board
/// keep it well-formed and never change its width or its number of tiles.
pub proof fn lemma_board_shape(b: Board)
    requires
        b.wf(),
    ensures
        b.tile_states@.len() == b.tile_values@.len() == b.width * b.height_spec(),
        b.total >= BOARD_MIN,
        b.width >= 1,
        1 <= b.height_spec() <= 255,
{
    if b.height_spec() < 1 {
        assert(b.width * b.height_spec() <= 0) by (nonlinear_arith)
            requires
                b.height_spec() < 1,
                b.width >= 1,
                b.height_spec() >= 0,
        ;
    }
}

/// What toggling does to a tile: picking a picked tile makes it normal and any other
/// tile picked; marking a marked tile makes it normal and any other tile marked. A
/// tile's value flips exactly when it goes from normal to picked or from picked to
/// normal; every other tile keeps its value.
pub proof fn lemma_tile_transitions(states: Seq<TileState>, values: Seq<bool>, i: int, new: TileState)
    requires
        0 <= i < states.len(),
        states.len() == values.len(),
    ensures
        pick_target(TileState::Normal) == TileState::Picked,
        pick_target(TileState::Marked) == TileState::Picked,
        pick_target(TileState::Picked) == TileState::Normal,
        mark_target(TileState::Normal) == TileState::Marked,
        mark_target(TileState::Picked) == TileState::Marked,
        mark_target(TileState::Marked) == TileState::Normal,
        values_after(states, values, i, new).len() == values.len(),
        values_after(states, values, i, new)[i] == if (states[i] == TileState::Normal && new
            == TileState::Picked) || (states[i] == TileState::Picked && new
            == TileState::Normal) {
            !values[i]
        } else {
            values[i]
        },
        forall|j: int|
            0 <= j < values.len() && j != i ==> #[trigger] values_after(states, values, i, new)[j]
                == values[j],
        all_false(values) <==> forall|j: int| 0 <= j < values.len() ==> !values[j],
{
}

/// Where the tiles of a board are: tile `(x, y)` is at index `x + y * width`, and it
/// is on the board when `x < width` and `y < total / width`, the number of rows. A
/// board has at least 25 tiles (5 by 5).
pub proof fn lemma_board_layout(b: Board)
    ensures
        BOARD_MIN == 25,
        b.height_spec() == b.total as int / b.width as int,
        forall|x: int, y: int| #[trigger] b.tile_index(x, y) == x + y * b.width,
        forall|x: int, y: int|
            #[trigger] b.valid_coord_spec(x, y) <==> 0 <= x < b.width && 0 <= y < b.total as int
                / b.width as int,
{
}

/**
The picross puzzle itself

Tile `(x, y)` is stored at index `x + y * width` of both vectors.
*/
#[derive(Debug, Clone)]
pub struct Board {
    /// The width of each row
    pub width: u8,
    /// The total amount of tiles
    pub total: usize,
    /// Contains the state of each tile
    pub tile_states: Vec<TileState>,
    /// Contains the bool value of each tile
    /// If all values are false, then the puzzle is solved
    pub tile_values: Vec<bool>,
}

impl Board {
    /// Well-formedness: both vectors hold one entry per tile, the tiles fill whole
    /// rows of `width` tiles, there are at most 255 rows, and at least 25 tiles.
    pub open spec fn wf(&self) -> bool {
        &&& self.tile_states@.len() == self.total
        &&& self.tile_values@.len() == self.total
        &&& BOARD_MIN <= self.total
        &&& self.width > 0
        &&& self.total == self.width * self.height_spec()
        &&& self.height_spec() <= 255
    }

    /// The number of rows.
    pub open spec fn height_spec(&self) -> int {
        self.total as int / self.width as int
    }

    /// Whether `(x, y)` designates a tile of the board.
    pub open spec fn valid_coord_spec(&self, x: int, y: int) -> bool {
        0 <= x < self.width && 0 <= y < self.height_spec()
    }

    /// The index of tile `(x, y)`.
    pub open spec fn tile_index(&self, x: int, y: int) -> int {
        x + y * self.width
    }

    /// The index of tile `(x, y)`, in or out of the board.
    fn index_of(&self, x: u8, y: u8) -> (r: usize)
        ensures
            r == self.tile_index(x as int, y as int),
    {
        proof {
            crate::binmat::lemma_byte_product(y as int, self.width as int);
        }
        x as usize + (y as usize) * (self.width as usize)
    }

    /// Checks if given coords are in range
    fn valid_coord(&self, x: u8, y: u8) -> (r: bool)
        requires
            self.wf(),
        ensures
            r == self.valid_coord_spec(x as int, y as int),
    {
        in_range(&x, 0, self.width) && in_range(
            &(y as usize),
            0,
            self.total / (self.width as usize),
        )
    }

    /// A valid tile's index lies inside the board.
    proof fn lemma_tile_in_board(&self, x: int, y: int)
        requires
            self.wf(),
            self.valid_coord_spec(x, y),
        ensures
            0 <= self.tile_index(x, y) < self.total,
    {
        let w = self.width as int;
        let h = self.height_spec();
        assert(y * w <= (h - 1) * w) by (nonlinear_arith)
            requires
                0 <= y <= h - 1,
                0 <= w,
        ;
        assert((h - 1) * w == h * w - w) by (nonlinear_arith);
        assert(h * w == w * h) by (nonlinear_arith);
        assert(0 <= y * w) by (nonlinear_arith)
            requires
                0 <= y,
                0 <= w,
        ;
    }

    /**
    Returns a new empty `Board`: every tile is normal and `false`.

    It may return an error if the amount is too small (<25)
    */
    pub fn new(w: u8, h: u8) -> (r: Result<Self, BoardError>)
        requires
        ensures
            w * h < BOARD_MIN ==> r == Err::<Self, BoardError>(BoardError::BoardIsTooSmall),
            w * h >= BOARD_MIN ==> (r matches Ok(b) && b.wf() && b.width == w && b.total == w * h
                && b.height_spec() == h && b.tile_states@ == Seq::new(
                (w * h) as nat,
                |i: int| TileState::Normal,
            ) && b.tile_values@ == Seq::new((w * h) as nat, |i: int| false)),
    {
        proof {
            crate::binmat::lemma_byte_product(w as int, h as int);
        }
        let total: usize = (w as usize) * (h as usize);
        if total < BOARD_MIN {
            return Err(BoardError::BoardIsTooSmall);
        }
        let tile_states = vec![TileState::Normal; total];
        let tile_values = vec![false; total];
        proof {
            assert(tile_states@ =~= Seq::new((w * h) as nat, |i: int| TileState::Normal));
            assert(tile_values@ =~= Seq::new((w * h) as nat, |i: int| false));
            assert(w > 0) by (nonlinear_arith)
                requires
                    w as int * h as int >= 25,
            ;
            vstd::arithmetic::div_mod::lemma_mod_multiples_basic(h as int, w as int);
            vstd::arithmetic::div_mod::lemma_div_by_multiple(h as int, w as int);
            assert(h as int * w as int == w * h) by (nonlinear_arith);
        }
        Ok(Board { width: w, total, tile_states, tile_values })
    }

    /**
    Returns a new `Board` initialized from a binary matrix: every tile is normal
    and its value is the matrix's value.

    Returns an error if the matrix is too small.
    */
    pub fn from_mat(mat: &BinMat) -> (r: Result<Self, BoardError>)
        requires
            mat.wf(),
        ensures
            mat.width * mat.height < BOARD_MIN ==> r == Err::<Self, BoardError>(
                BoardError::BoardIsTooSmall,
            ),
            mat.width * mat.height >= BOARD_MIN ==> (r matches Ok(b) && b.wf() && b.width
                == mat.width && b.total == mat.width * mat.height && b.height_spec() == mat.height
                && b.tile_states@ == Seq::new(b.total as nat, |i: int| TileState::Normal)
                && b.tile_values@ == mat.values@),
    {
        let w = mat.get_width();
        let h = mat.get_height();
        proof {
            crate::binmat::lemma_byte_product(w as int, h as int);
        }
        let total: usize = (w as usize) * (h as usize);
        if total < BOARD_MIN {
            return Err(BoardError::BoardIsTooSmall);
        }
        let tile_states = vec![TileState::Normal; total];
        let tile_values = mat.get_mat();
        proof {
            assert(tile_states@ =~= Seq::new(total as nat, |i: int| TileState::Normal));
            assert(w > 0) by (nonlinear_arith)
                requires
                    w as int * h as int >= 25,
            ;
            vstd::arithmetic::div_mod::lemma_mod_multiples_basic(h as int, w as int);
            vstd::arithmetic::div_mod::lemma_div_by_multiple(h as int, w as int);
            assert(h as int * w as int == w * h) by (nonlinear_arith);
        }
        Ok(Board { width: w, total, tile_states, tile_values })
    }

    /// returns the board's width
    pub fn get_width(&self) -> (r: u8)
        ensures
            r == self.width,
    {
        self.width
    }

    /// calculates and returns the board's height
    pub fn get_height(&self) -> (r: u8)
        requires
            self.wf(),
        ensures
            r == self.height_spec(),
    {
        (self.total / self.width as usize) as u8
    }

    /// Returns a clone of the tile state vector
    pub fn get_states(&self) -> (r: Vec<TileState>)
        ensures
            r@ == self.tile_states@,
    {
        let mut out: Vec<TileState> = Vec::new();
        let mut i: usize = 0;
        while i < self.tile_states.len()
            invariant
                i <= self.tile_states.len(),
                out@ == self.tile_states@.take(i as int),
            decreases self.tile_states.len() - i,
        {
            out.push(self.tile_states[i]);
            i = i + 1;
            assert(out@ =~= self.tile_states@.take(i as int));
        }
        assert(out@ =~= self.tile_states@);
        out
    }

    /// Returns a copy of one tile's state
    /// May return an error if the given coordinates are out of range.
    pub fn get_state(&self, x: u8, y: u8) -> (r: Result<TileState, BoardError>)
        requires
            self.wf(),
        ensures
            self.valid_coord_spec(x as int, y as int) ==> r == Ok::<TileState, BoardError>(
                self.tile_states@[self.tile_index(x as int, y as int)],
            ),
            !self.valid_coord_spec(x as int, y as int) ==> r == Err::<TileState, BoardError>(
                BoardError::OutOfBounds {
                    max: self.total,
                    val: self.tile_index(x as int, y as int) as usize,
                },
            ),
    {
        if self.valid_coord(x, y) {
            proof {
                self.lemma_tile_in_board(x as int, y as int);
            }
            Ok(self.tile_states[self.index_of(x, y)])
        } else {
            Err(BoardError::OutOfBounds { max: self.total, val: self.index_of(x, y) })
        }
    }

    /// This function returns `true` if every value are false
    pub fn is_solved(&self) -> (r: bool)
        ensures
            r == all_false(self.tile_values@),
    {
        let mut i: usize = 0;
        while i < self.tile_values.len()
            invariant
                i <= self.tile_values.len(),
                all_false(self.tile_values@.take(i as int)),
            decreases self.tile_values.len() - i,
        {
            if self.tile_values[i] {
                assert(self.tile_values@[i as int]);
                return false;
            }
            i = i + 1;
            assert forall|j: int| 0 <= j < i implies !#[trigger] self.tile_values@.take(
                i as int,
            )[j] by {
                if j < i - 1 {
                    assert(self.tile_values@.take(i as int)[j] == self.tile_values@.take(
                        i - 1,
                    )[j]);
                }
            }
        }
        assert(self.tile_values@.take(i as int) =~= self.tile_values@);
        true
    }

    /// Sets the selected tile's state to the given one.
    /// Also toggles the tile's value if it can change the state: picking a normal
    /// tile or setting a picked tile back to normal.
    pub fn set_state(&mut self, x: u8, y: u8, new_state: TileState) -> (r: Result<
        (),
        BoardError,
    >)
        requires
            old(self).wf(),
        ensures
            final(self).wf(),
            final(self).width == old(self).width,
            final(self).total == old(self).total,
            old(self).valid_coord_spec(x as int, y as int) ==> r == Ok::<(), BoardError>(())
                && final(self).tile_states@ == old(self).tile_states@.update(
                old(self).tile_index(x as int, y as int),
                new_state,
            ) && final(self).tile_values@ == values_after(
                old(self).tile_states@,
                old(self).tile_values@,
                old(self).tile_index(x as int, y as int),
                new_state,
            ),
            !old(self).valid_coord_spec(x as int, y as int) ==> r == Err::<(), BoardError>(
                BoardError::OutOfBounds {
                    max: old(self).total,
                    val: old(self).tile_index(x as int, y as int) as usize,
                },
            ) && final(self).tile_states@ == old(self).tile_states@ && final(self).tile_values@
                == old(self).tile_values@,
    {
        if !self.valid_coord(x, y) {
            return Err(BoardError::OutOfBounds { max: self.total, val: self.index_of(x, y) });
        }
        proof {
            self.lemma_tile_in_board(x as int, y as int);
        }
        let id: usize = self.index_of(x, y);
        let state = self.tile_states[id];
        match (state, new_state) {
            (TileState::Normal, TileState::Picked) | (TileState::Picked, TileState::Normal) => {
                let v = self.tile_values[id];
                self.tile_values.set(id, !v);
            },
            _ => {},
        }
        self.tile_states.set(id, new_state);
        Ok(())
    }

    /// Toggle mark a tile: a marked tile goes back to normal, any other tile
    /// becomes marked. Marking never changes a tile's value.
    pub fn mark_tile(&mut self, x: u8, y: u8) -> (r: Result<(), BoardError>)
        requires
            old(self).wf(),
        ensures
            final(self).wf(),
            final(self).width == old(self).width,
            final(self).total == old(self).total,
            final(self).tile_values@ == old(self).tile_values@,
            old(self).valid_coord_spec(x as int, y as int) ==> r == Ok::<(), BoardError>(())
                && final(self).tile_states@ == old(self).tile_states@.update(
                old(self).tile_index(x as int, y as int),
                mark_target(old(self).tile_states@[old(self).tile_index(x as int, y as int)]),
            ),
            !old(self).valid_coord_spec(x as int, y as int) ==> r == Err::<(), BoardError>(
                BoardError::OutOfBounds {
                    max: old(self).total,
                    val: old(self).tile_index(x as int, y as int) as usize,
                },
            ) && final(self).tile_states@ == old(self).tile_states@,
    {
        let target = match self.get_state(x, y) {
            Ok(TileState::Marked) => TileState::Normal,
            _ => TileState::Marked,
        };
        self.set_state(x, y, target)
    }

    /// Toggle pick a tile: a picked tile goes back to normal, any other tile
    /// becomes picked. Picking a normal tile, or unpicking a picked one, flips its
    /// value.
    pub fn pick_tile(&mut self, x: u8, y: u8) -> (r: Result<(), BoardError>)
        requires
            old(self).wf(),
        ensures
            final(self).wf(),
            final(self).width == old(self).width,
            final(self).total == old(self).total,
            old(self).valid_coord_spec(x as int, y as int) ==> r == Ok::<(), BoardError>(())
                && final(self).tile_states@ == old(self).tile_states@.update(
                old(self).tile_index(x as int, y as int),
                pick_target(old(self).tile_states@[old(self).tile_index(x as int, y as int)]),
            ) && final(self).tile_values@ == values_after(
                old(self).tile_states@,
                old(self).tile_values@,
                old(self).tile_index(x as int, y as int),
                pick_target(old(self).tile_states@[old(self).tile_index(x as int, y as int)]),
            ),
            !old(self).valid_coord_spec(x as int, y as int) ==> r == Err::<(), BoardError>(
                BoardError::OutOfBounds {
                    max: old(self).total,
                    val: old(self).tile_index(x as int, y as int) as usize,
                },
            ) && final(self).tile_states@ == old(self).tile_states@ && final(self).tile_values@
                == old(self).tile_values@,
    {
        let target = match self.get_state(x, y) {
            Ok(TileState::Picked) => TileState::Normal,
            _ => TileState::Picked,
        };
        self.set_state(x, y, target)
    }
}

} // verus!
