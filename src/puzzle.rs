//! Puzzles as generated, and a puzzle being played with its history of swaps.

use vstd::prelude::*;

use crate::cell::{lemma_cell_rotate_inverse, lemma_cell_rotate_wf, Cell, PuzzleCell, SwapRecord};
use crate::color::Color;
use crate::direction::Direction;
use crate::direction_map::DirectionSet;
use crate::game_grid::{
    can_swap_at, is_filled, lemma_filled_unique, lemma_skeleton_cells, play_cells, skeleton, solve_state,
    swap_record_of, swap_result, undo_result, GridSolveState,
};
use crate::grid::{lemma_index_of_lin, lemma_lin_bounds, lin, Grid, GridIndex, GridSize};

verus! {

/// How a puzzle being played stands.
#[derive(Debug, Clone, Copy, PartialEq, Eq, Structural)]
pub enum PuzzleSolveState {
    Solved,
    NotAllConnected,
    NotAllFilled,
    DoubleFilled,
    DuplicateColorSection,
    TooManySwaps,
}

/// The puzzle-level state for a grid-level one.
pub open spec fn from_grid_state(s: GridSolveState) -> PuzzleSolveState {
    match s {
        GridSolveState::Solved => PuzzleSolveState::Solved,
        GridSolveState::NotAllConnected => PuzzleSolveState::NotAllConnected,
        GridSolveState::NotAllFilled => PuzzleSolveState::NotAllFilled,
        GridSolveState::DoubleFilled => PuzzleSolveState::DoubleFilled,
        GridSolveState::DuplicateColorSection => PuzzleSolveState::DuplicateColorSection,
    }
}

/// A puzzle as generated: its starting layout, the number of swaps allowed,
/// and the position to point at as a hint.
#[derive(Debug, Clone)]
pub struct Puzzle {
    grid: Grid<PuzzleCell>,
    swaps: u8,
    hint: GridIndex,
}

impl Puzzle {
    pub closed spec fn spec_grid(&self) -> Grid<PuzzleCell> {
        self.grid
    }

    pub closed spec fn spec_swap_limit(&self) -> u8 {
        self.swaps
    }

    pub closed spec fn spec_hint(&self) -> GridIndex {
        self.hint
    }

    pub open spec fn wf(&self) -> bool {
        self.spec_grid().wf()
    }

    pub fn new(grid: Grid<PuzzleCell>, swaps: u8, hint: GridIndex) -> (r: Self)
        ensures
            r.spec_grid() == grid,
            r.spec_swap_limit() == swaps,
            r.spec_hint() == hint,
    {
        Self { grid, swaps, hint }
    }

    /// The number of swaps allowed.
    pub fn swap_limit(&self) -> (r: u8)
        ensures
            r == self.spec_swap_limit(),
    {
        self.swaps
    }

    /// A copy of the starting layout.
    pub fn start(&self) -> (r: Grid<PuzzleCell>)
        requires
            self.wf(),
        ensures
            r.wf(),
            r.spec_size() == self.spec_grid().spec_size(),
            r@ == self.spec_grid()@,
    {
        self.grid.cloned()
    }

    /// The position to point at as a hint.
    pub fn hint(&self) -> (r: GridIndex)
        ensures
            r == self.spec_hint(),
    {
        self.hint
    }
}

/// The smallest puzzle: a swap-colored source on the left that opens west, and a
/// plain cell on the right that opens east; one swap solves it.
pub fn fallback_puzzle() -> (r: Puzzle)
    ensures
        r.wf(),
        r.spec_grid().spec_size() == (GridSize { width: 2, height: 1 }),
        r.spec_grid().at(GridIndex { x: 0, y: 0 }) == Some(
            PuzzleCell::Source { connections: DirectionSet { e: false, n: false, w: true, s: false }, source: Color::Purple },
        ),
        r.spec_grid().at(GridIndex { x: 1, y: 0 }) == Some(
            PuzzleCell::Normal { connections: DirectionSet { e: true, n: false, w: false, s: false } },
        ),
        r.spec_swap_limit() == 1,
        r.spec_hint() == (GridIndex { x: 1, y: 0 }),
{
    let mut grid: Grid<PuzzleCell> = Grid::with_size(GridSize { width: 2, height: 1 });
    let west = DirectionSet::from_iter(&[Direction::W]);
    let east = DirectionSet::from_iter(&[Direction::E]);
    proof {
        DirectionSet::lemma_ext_equal(west, DirectionSet { e: false, n: false, w: true, s: false });
        DirectionSet::lemma_ext_equal(east, DirectionSet { e: true, n: false, w: false, s: false });
    }
    let _ = grid.insert(GridIndex { x: 0, y: 0 }, PuzzleCell::Source { connections: west, source: Color::SWAP });
    let _ = grid.insert(GridIndex { x: 1, y: 0 }, PuzzleCell::Normal { connections: east });
    Puzzle { grid, swaps: 1, hint: GridIndex { x: 1, y: 0 } }
}

/// A puzzle being played: the current grid, filled, and the swaps made so far.
pub struct PlayingPuzzle {
    puzzle: Puzzle,
    grid: Grid<Cell>,
    history: Vec<SwapRecord>,
}

impl PlayingPuzzle {
    pub closed spec fn spec_puzzle(&self) -> Puzzle {
        self.puzzle
    }

    pub closed spec fn spec_grid(&self) -> Grid<Cell> {
        self.grid
    }

    pub closed spec fn spec_history(&self) -> Seq<SwapRecord> {
        self.history@
    }

    /// The grid is filled, sized as the puzzle, and every recorded swap names
    /// two positions that hold cells.
    pub open spec fn wf(&self) -> bool {
        &&& self.spec_puzzle().wf()
        &&& self.spec_grid().game_wf()
        &&& self.spec_grid().spec_size() == self.spec_puzzle().spec_grid().spec_size()
        &&& is_filled(self.spec_grid().spec_size(), self.spec_grid()@)
        &&& forall|k: int|
            0 <= k < self.spec_history().len() ==> self.spec_grid().at((#[trigger] self.spec_history()[k]).a) is Some
                && self.spec_grid().at(self.spec_history()[k].b) is Some
    }

    /// What a successful swap of `a` and `b` leaves: the record of the swap is
    /// added to the history and the grid is the swapped grid, filled again.
    pub open spec fn swapped_to(self, a: GridIndex, b: GridIndex, rec: SwapRecord, next: PlayingPuzzle) -> bool {
        &&& can_swap_at(self.spec_grid(), a, b)
        &&& rec == swap_record_of(self.spec_grid(), a, b)
        &&& next.spec_puzzle() == self.spec_puzzle()
        &&& next.spec_history() == self.spec_history().push(rec)
        &&& next.spec_grid().spec_size() == self.spec_grid().spec_size()
        &&& skeleton(next.spec_grid()@) == skeleton(swap_result(self.spec_grid(), a, b))
        &&& is_filled(next.spec_grid().spec_size(), next.spec_grid()@)
        &&& next.wf()
    }

    /// What a successful undo leaves: the last swap leaves the history and the
    /// grid is the grid with that swap undone, filled again.
    pub open spec fn undone_to(self, rec: SwapRecord, next: PlayingPuzzle) -> bool {
        &&& self.spec_history().len() > 0
        &&& rec == self.spec_history().last()
        &&& next.spec_puzzle() == self.spec_puzzle()
        &&& next.spec_history() == self.spec_history().drop_last()
        &&& next.spec_grid().spec_size() == self.spec_grid().spec_size()
        &&& skeleton(next.spec_grid()@) == skeleton(undo_result(self.spec_grid(), rec))
        &&& is_filled(next.spec_grid().spec_size(), next.spec_grid()@)
        &&& next.wf()
    }

    /// Too many swaps first, then the state of the grid.
    pub open spec fn spec_is_solved(self) -> PuzzleSolveState {
        if self.spec_history().len() > self.spec_puzzle().spec_swap_limit() {
            PuzzleSolveState::TooManySwaps
        } else {
            from_grid_state(solve_state(self.spec_grid().spec_size(), self.spec_grid()@))
        }
    }

    /// Starts playing a puzzle: its starting layout, filled, with no swap made.
    pub fn play(puzzle: Puzzle) -> (r: Self)
        requires
            puzzle.wf(),
        ensures
            r.wf(),
            r.spec_puzzle() == puzzle,
            r.spec_history().len() == 0,
            skeleton(r.spec_grid()@) == skeleton(play_cells(puzzle.spec_grid()@)),
    {
        let grid = Grid::from_puzzle_grid(puzzle.start());
        Self { puzzle, grid, history: Vec::new() }
    }

    pub fn puzzle(&self) -> (r: &Puzzle)
        ensures
            *r == self.spec_puzzle(),
    {
        &self.puzzle
    }

    pub fn grid(&self) -> (r: &Grid<Cell>)
        ensures
            *r == self.spec_grid(),
    {
        &self.grid
    }

    /// The number of swaps made and not undone.
    pub fn swaps_made(&self) -> (r: usize)
        ensures
            r == self.spec_history().len(),
    {
        self.history.len()
    }

    /// The number of swaps allowed.
    pub fn swap_limit(&self) -> (r: usize)
        ensures
            r == self.spec_puzzle().spec_swap_limit(),
    {
        self.puzzle.swap_limit() as usize
    }

    pub fn size(&self) -> (r: GridSize)
        ensures
            r == self.spec_grid().spec_size(),
    {
        self.grid.size()
    }

    /// Whether a position holds a cell.
    pub fn index_has_cell(&self, grid_index: GridIndex) -> (r: bool)
        requires
            self.wf(),
        ensures
            r == self.spec_grid().at(grid_index).is_some(),
    {
        self.grid.contains(grid_index)
    }

    /// The positions that hold cells, with their cells, in row-major order.
    pub fn iter_cells(&self) -> (r: Vec<(GridIndex, Cell)>)
        requires
            self.wf(),
        ensures
            forall|k: int| 0 <= k < r@.len() ==> self.spec_grid().at((#[trigger] r@[k]).0) == Some(r@[k].1),
            forall|i: GridIndex| #[trigger] self.spec_grid().at(i).is_some() ==> exists|k: int| 0 <= k < r@.len() && r@[k].0 == i,
    {
        self.grid.iter()
    }

    /// Swaps two cells when they may trade places, records the swap and fills
    /// the grid again; otherwise changes nothing.
    pub fn try_swap(&mut self, a: GridIndex, b: GridIndex) -> (r: Option<SwapRecord>)
        requires
            old(self).wf(),
        ensures
            r is Some <==> can_swap_at(old(self).spec_grid(), a, b),
            r is Some ==> old(self).swapped_to(a, b, r.unwrap(), *final(self)),
            r is None ==> final(self).spec_grid() == old(self).spec_grid() && final(self).spec_history()
                == old(self).spec_history() && final(self).spec_puzzle() == old(self).spec_puzzle(),
            final(self).wf(),
    {
        let ghost before = self.grid;
        match self.grid.swap_with_rotation(a, b) {
            Some(record) => {
                self.history.push(record);
                self.grid.fill();
                proof {
                    lemma_same_positions_swap(before, a, b);
                    lemma_skeleton_cells(self.grid@);
                    lemma_skeleton_cells(swap_result(before, a, b));
                    assert forall|k: int| 0 <= k < self.history@.len() implies self.grid.at(
                        (#[trigger] self.history@[k]).a,
                    ) is Some && self.grid.at(self.history@[k].b) is Some by {
                        lemma_positions_from_skeleton(self.grid, before, swap_result(before, a, b), self.history@[k].a);
                        lemma_positions_from_skeleton(self.grid, before, swap_result(before, a, b), self.history@[k].b);
                    }
                }
                Some(record)
            },
            None => None,
        }
    }

    /// Undoes the last swap and fills the grid again; `None` when no swap is left to undo.
    pub fn try_undo(&mut self) -> (r: Option<SwapRecord>)
        requires
            old(self).wf(),
        ensures
            r is None <==> old(self).spec_history().len() == 0,
            r is Some ==> old(self).undone_to(r.unwrap(), *final(self)),
            r is None ==> final(self).spec_grid() == old(self).spec_grid() && final(self).spec_history()
                == old(self).spec_history() && final(self).spec_puzzle() == old(self).spec_puzzle(),
            final(self).wf(),
    {
        let ghost before = self.grid;
        let ghost hist = self.history@;
        match self.history.pop() {
            Some(record) => {
                proof {
                    assert(hist[hist.len() - 1] == record);
                    assert(self.history@ == hist.drop_last());
                }
                self.grid.undo_swap(record);
                self.grid.fill();
                proof {
                    lemma_same_positions_undo(before, record);
                    lemma_skeleton_cells(self.grid@);
                    lemma_skeleton_cells(undo_result(before, record));
                    assert forall|k: int| 0 <= k < self.history@.len() implies self.grid.at(
                        (#[trigger] self.history@[k]).a,
                    ) is Some && self.grid.at(self.history@[k].b) is Some by {
                        assert(self.history@[k] == hist[k]);
                        lemma_positions_from_skeleton(self.grid, before, undo_result(before, record), hist[k].a);
                        lemma_positions_from_skeleton(self.grid, before, undo_result(before, record), hist[k].b);
                    }
                }
                Some(record)
            },
            None => None,
        }
    }

    /// How the puzzle stands.
    pub fn is_solved(&self) -> (r: PuzzleSolveState)
        requires
            self.wf(),
        ensures
            r == self.spec_is_solved(),
    {
        if self.swaps_made() > self.swap_limit() {
            return PuzzleSolveState::TooManySwaps;
        }
        match self.grid.is_solved() {
            GridSolveState::Solved => PuzzleSolveState::Solved,
            GridSolveState::NotAllConnected => PuzzleSolveState::NotAllConnected,
            GridSolveState::NotAllFilled => PuzzleSolveState::NotAllFilled,
            GridSolveState::DoubleFilled => PuzzleSolveState::DoubleFilled,
            GridSolveState::DuplicateColorSection => PuzzleSolveState::DuplicateColorSection,
        }
    }
}

/// A swap keeps cells at the same positions.
proof fn lemma_same_positions_swap(g: Grid<Cell>, a: GridIndex, b: GridIndex)
    requires
        g.wf(),
        can_swap_at(g, a, b),
    ensures
        forall|i: GridIndex|
            g.spec_size().spec_contains(i) ==> (#[trigger] swap_result(g, a, b)[lin(g.spec_size(), i)]).is_some()
                == g.at(i).is_some(),
{
    lemma_lin_bounds(g.spec_size(), a);
    lemma_lin_bounds(g.spec_size(), b);
    assert forall|i: GridIndex|
        g.spec_size().spec_contains(i) implies (#[trigger] swap_result(g, a, b)[lin(g.spec_size(), i)]).is_some()
        == g.at(i).is_some() by {
        lemma_lin_bounds(g.spec_size(), i);
    }
}

/// Undoing a swap keeps cells at the same positions.
proof fn lemma_same_positions_undo(g: Grid<Cell>, rec: SwapRecord)
    requires
        g.wf(),
        g.at(rec.a) is Some,
        g.at(rec.b) is Some,
    ensures
        forall|i: GridIndex|
            g.spec_size().spec_contains(i) ==> (#[trigger] undo_result(g, rec)[lin(g.spec_size(), i)]).is_some()
                == g.at(i).is_some(),
{
    lemma_lin_bounds(g.spec_size(), rec.a);
    lemma_lin_bounds(g.spec_size(), rec.b);
    assert forall|i: GridIndex|
        g.spec_size().spec_contains(i) implies (#[trigger] undo_result(g, rec)[lin(g.spec_size(), i)]).is_some()
        == g.at(i).is_some() by {
        lemma_lin_bounds(g.spec_size(), i);
    }
}

/// A grid whose skeleton is that of `cells` holds cells where `cells` does.
proof fn lemma_positions_from_skeleton(now: Grid<Cell>, before: Grid<Cell>, cells: Seq<Option<Cell>>, i: GridIndex)
    requires
        now.wf(),
        before.wf(),
        now.spec_size() == before.spec_size(),
        cells.len() == before@.len(),
        skeleton(now@) == skeleton(cells),
        forall|j: GridIndex|
            before.spec_size().spec_contains(j) ==> (#[trigger] cells[lin(before.spec_size(), j)]).is_some()
                == before.at(j).is_some(),
        before.at(i) is Some,
    ensures
        now.at(i) is Some,
{
    lemma_skeleton_cells(now@);
    lemma_skeleton_cells(cells);
    lemma_lin_bounds(now.spec_size(), i);
    assert(skeleton(now@)[lin(now.spec_size(), i)] == skeleton(cells)[lin(now.spec_size(), i)]);
}

/// Undoing a swap right after making it gives back the same grid, history and puzzle.
pub proof fn lemma_swap_undo_inverse(
    s: PlayingPuzzle,
    a: GridIndex,
    b: GridIndex,
    rec: SwapRecord,
    swapped: PlayingPuzzle,
    undo_rec: SwapRecord,
    undone: PlayingPuzzle,
)
    requires
        s.wf(),
        s.swapped_to(a, b, rec, swapped),
        swapped.undone_to(undo_rec, undone),
    ensures
        undo_rec == rec,
        undone.spec_grid()@ == s.spec_grid()@,
        undone.spec_grid().spec_size() == s.spec_grid().spec_size(),
        undone.spec_history() == s.spec_history(),
        undone.spec_puzzle() == s.spec_puzzle(),
{
    let g0 = s.spec_grid();
    let g1 = swapped.spec_grid();
    let size = g0.spec_size();
    let la = lin(size, a);
    let lb = lin(size, b);
    assert(swapped.spec_history().last() == rec);
    assert(undone.spec_history() =~= s.spec_history());
    lemma_index_of_lin(size, a);
    lemma_index_of_lin(size, b);
    assert(la != lb);
    let ca = g0.at(a).unwrap();
    let cb = g0.at(b).unwrap();
    let ra = ca.spec_rotation_for_fill();
    let rb = cb.spec_rotation_for_fill();
    lemma_skeleton_cells(g0@);
    lemma_skeleton_cells(g1@);
    lemma_skeleton_cells(swap_result(g0, a, b));
    lemma_skeleton_cells(undone.spec_grid()@);
    let u = undo_result(g1, rec);
    lemma_skeleton_cells(u);
    assert(g0@[la] == Some(ca));
    assert(g0@[lb] == Some(cb));
    assert(skeleton(g1@)[la] == skeleton(swap_result(g0, a, b))[la]);
    assert(skeleton(g1@)[lb] == skeleton(swap_result(g0, a, b))[lb]);
    let xa = g1@[la].unwrap();
    let xb = g1@[lb].unwrap();
    assert(xa.cleared() == cb.spec_rotate(rb).cleared());
    assert(xb.cleared() == ca.spec_rotate(ra).cleared());
    lemma_cell_rotate_wf(ca, ra);
    lemma_cell_rotate_wf(cb, rb);
    lemma_cell_rotate_wf(xa, rb.spec_inverse());
    lemma_cell_rotate_wf(xb, ra.spec_inverse());
    lemma_cell_rotate_inverse(ca.cleared(), ra);
    lemma_cell_rotate_inverse(cb.cleared(), rb);
    assert(u[la] == Some(xb.spec_rotate(ra.spec_inverse())));
    assert(u[lb] == Some(xa.spec_rotate(rb.spec_inverse())));
    assert(skeleton(u) =~= skeleton(g0@)) by {
        assert forall|j: int| 0 <= j < u.len() implies skeleton(u)[j] == skeleton(g0@)[j] by {
            if j != la && j != lb {
                assert(u[j] == g1@[j]);
                assert(skeleton(g1@)[j] == skeleton(swap_result(g0, a, b))[j]);
                assert(swap_result(g0, a, b)[j] == g0@[j]);
            }
        }
    }
    lemma_filled_unique(size, undone.spec_grid()@, g0@);
}

/// Neither cell holding the swap color, or either holding the stop color,
/// keeps two cells from trading places.
pub proof fn lemma_swap_eligibility(a: Cell, b: Cell)
    ensures
        !a.has_color(Color::SWAP) && !b.has_color(Color::SWAP) ==> !Cell::spec_can_swap(a, b),
        a.has_color(Color::STOP) || b.has_color(Color::STOP) ==> !Cell::spec_can_swap(a, b),
{
}

} // verus!
