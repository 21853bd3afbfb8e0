//! Generating puzzles: a solved layout scrambled by reverse swaps.

use vstd::prelude::*;

use crate::cell::{lemma_cell_rotate_inverse, lemma_cell_rotate_wf, lemma_puzzle_cell_round_trip, Cell, PuzzleCell, SwapRecord};
use crate::color::Color;
use crate::direction::Rotation;
use crate::direction_map::DirectionSet;
use crate::game_grid::{
    is_filled, lemma_filled_unique, lemma_skeleton_cells, play_cells, skeleton, solve_state, swap_result,
    undo_result, GridSolveState,
};
use crate::grid::{get_linear_index, lemma_index_of_lin, lemma_lin_bounds, lin, Grid, GridIndex, GridSize};
use crate::puzzle::{fallback_puzzle, Puzzle};
use crate::random::{random_below, sample_two};
use crate::solutions::{generate_solution, solved_layout};
use crate::solver::{
    find_solution, lemma_solves_same, no_solution_within, lemma_turned_skeleton, solution_path, solves, step_ok, swap_without_fill,
    turned_and_swapped,
};

verus! {

/// Whether a kind of source may, must, or must not appear.
#[derive(Debug, Clone, Copy, PartialEq, Eq, Structural)]
pub enum SourceSettings {
    Never,
    Maybe,
    Definitely,
}

/// The knobs of the generator. Chances are counted in millionths.
#[derive(Debug, Clone, Copy)]
pub struct GeneratorSettings {
    /// Size of the grid.
    pub size: GridSize,
    /// Number of swaps the solution should take.
    pub swap_count: u8,
    /// Chance that a considered position is missing.
    pub missing_chance: u32,
    /// Largest number of missing positions.
    pub missing: usize,
    /// Whether the puzzle may hold stop-colored sources.
    pub stop_sources: SourceSettings,
    /// Whether the puzzle may hold rotating-colored sources.
    pub rotator_sources: SourceSettings,
    /// Smallest number of regions besides the swap-colored one.
    pub min_regions: usize,
    /// Chance of each region after the minimum.
    pub extra_region_chance: u32,
    /// Chance of each source of a region after its first.
    pub extra_source_chance: u32,
    /// Chance of making an intersection where one may go.
    pub intersection_chance: u32,
    /// Largest number of intersections.
    pub max_intersections: usize,
    /// Chance of each further round of breaking up loops.
    pub knockout_loop_chance: u32,
    /// When not zero, the length up to which shorter solutions are looked for.
    pub check_solution_len: usize,
    /// How many times a shorter solution is worked around before the puzzle is kept as it is.
    pub check_solution_retries: usize,
}

impl GeneratorSettings {
    pub open spec fn spec_default() -> GeneratorSettings {
        GeneratorSettings {
            size: GridSize { width: 3, height: 3 },
            swap_count: 4,
            missing_chance: 100000,
            missing: 2,
            stop_sources: SourceSettings::Never,
            rotator_sources: SourceSettings::Never,
            min_regions: 2,
            extra_region_chance: 100000,
            extra_source_chance: 100000,
            intersection_chance: 0,
            max_intersections: 0,
            knockout_loop_chance: 330000,
            check_solution_len: 1,
            check_solution_retries: 3,
        }
    }
}

impl Default for GeneratorSettings {
    fn default() -> (r: Self)
        ensures
            r == GeneratorSettings::spec_default(),
    {
        GeneratorSettings {
            size: GridSize { width: 3, height: 3 },
            swap_count: 4,
            missing_chance: 100000,
            missing: 2,
            stop_sources: SourceSettings::Never,
            rotator_sources: SourceSettings::Never,
            min_regions: 2,
            extra_region_chance: 100000,
            extra_source_chance: 100000,
            intersection_chance: 0,
            max_intersections: 0,
            knockout_loop_chance: 330000,
            check_solution_len: 1,
            check_solution_retries: 3,
        }
    }
}

/// The grids `states` are what playing `sol` in order leaves.
pub open spec fn play_path(states: Seq<Grid<Cell>>, sol: Seq<SwapRecord>) -> bool {
    &&& states.len() == sol.len() + 1
    &&& forall|k: int| 0 <= k < sol.len() ==> #[trigger] step_ok(states[k], sol[k], states[k + 1])
}

/// The puzzle, played from its start, is solved by some sequence of exactly `k`
/// swaps whose first swap moves the hinted position.
pub open spec fn solvable_in(p: Puzzle, k: nat) -> bool {
    exists|start: Grid<Cell>, sol: Seq<SwapRecord>|
        #![trigger solves(start, sol)]
        start.game_wf() && start.spec_size() == p.spec_grid().spec_size() && skeleton(start@) == skeleton(
            play_cells(p.spec_grid()@),
        ) && is_filled(start.spec_size(), start@) && sol.len() == k && solves(start, sol) && (k > 0 ==> (
        p.spec_hint() == sol[0].a || p.spec_hint() == sol[0].b))
}

/// A puzzle that some sequence of `k` swaps solves is found by the solver with
/// any bound of at least `k`: for such a bound the solver never answers `None`.
pub proof fn lemma_solvable_puzzle_is_found(p: Puzzle, k: nat, max: nat)
    requires
        solvable_in(p, k),
        k <= max,
    ensures
        !no_solution_within(p, max),
{
    let (start, sol) = choose|start: Grid<Cell>, sol: Seq<SwapRecord>|
        #![trigger solves(start, sol)]
        start.game_wf() && start.spec_size() == p.spec_grid().spec_size() && skeleton(start@) == skeleton(
            play_cells(p.spec_grid()@),
        ) && is_filled(start.spec_size(), start@) && sol.len() == k && solves(start, sol) && (k > 0 ==> (
        p.spec_hint() == sol[0].a || p.spec_hint() == sol[0].b));
    assert(solves(start, sol));
}

/// The puzzle is the one `fallback_puzzle` returns.
pub open spec fn is_fallback(p: Puzzle) -> bool {
    &&& p.wf()
    &&& p.spec_grid().spec_size() == (GridSize { width: 2, height: 1 })
    &&& p.spec_grid().at(GridIndex { x: 0, y: 0 }) == Some(
        PuzzleCell::Source { connections: DirectionSet { e: false, n: false, w: true, s: false }, source: Color::Purple },
    )
    &&& p.spec_grid().at(GridIndex { x: 1, y: 0 }) == Some(
        PuzzleCell::Normal { connections: DirectionSet { e: true, n: false, w: false, s: false } },
    )
    &&& p.spec_swap_limit() == 1
    &&& p.spec_hint() == (GridIndex { x: 1, y: 0 })
}

/// Generates a puzzle that the settings describe, retrying whole attempts until
/// one succeeds; after `u64::MAX` failed attempts it gives the fallback puzzle.
pub fn generate_puzzle(generator_settings: &GeneratorSettings) -> (r: Puzzle)
    requires
        generator_settings.size.area() >= 2,
        generator_settings.size.area() <= usize::MAX,
        generator_settings.swap_count >= 1,
    ensures
        r.wf(),
        is_fallback(r) || (r.spec_grid().spec_size() == generator_settings.size && 1 <= r.spec_swap_limit()
            <= generator_settings.swap_count && solvable_in(r, r.spec_swap_limit() as nat)),
{
    let mut attempts: u64 = u64::MAX;
    while attempts > 0
        invariant
            generator_settings.size.area() <= usize::MAX,
            generator_settings.swap_count >= 1,
        decreases attempts,
    {
        attempts = attempts - 1;
        match try_generate_puzzle(generator_settings) {
            Some(puzzle) => {
                return puzzle;
            },
            None => {},
        }
    }
    fallback_puzzle()
}

/// One attempt: a solved layout, scrambled by reverse swaps; then, while the
/// retries allow, a solution shorter than intended is looked for and, if one is
/// found, the puzzle is scrambled further from its start.
fn try_generate_puzzle(generator_settings: &GeneratorSettings) -> (r: Option<Puzzle>)
    requires
        generator_settings.size.area() <= usize::MAX,
        generator_settings.swap_count >= 1,
    ensures
        r is Some ==> r.unwrap().wf() && r.unwrap().spec_grid().spec_size() == generator_settings.size && 1
            <= r.unwrap().spec_swap_limit() <= generator_settings.swap_count && solvable_in(
            r.unwrap(),
            r.unwrap().spec_swap_limit() as nat,
        ),
{
    let solution_grid = match generate_solution(generator_settings) {
        Some(g) => g,
        None => {
            return None;
        },
    };
    let mut working_grid = Grid::from_puzzle_grid(solution_grid);
    let ghost solved = working_grid;
    proof {
        let played = choose|played: Grid<Cell>|
            #![trigger skeleton(played@), solve_state(played.spec_size(), played@)]
            played.game_wf() && played.spec_size() == solution_grid.spec_size() && skeleton(played@) == skeleton(
                play_cells(solution_grid@),
            ) && is_filled(played.spec_size(), played@) && solve_state(played.spec_size(), played@)
                == GridSolveState::Solved;
        lemma_filled_unique(solution_grid.spec_size(), played@, working_grid@);
    }
    let solution = reverse_solution(&mut working_grid, generator_settings.swap_count);
    if solution.len() == 0 {
        return None;
    }
    let ghost sol = solution@;
    proof {
        let states = choose|states: Seq<Grid<Cell>>|
            #[trigger] play_path(states, sol) && states[0]@ == working_grid@ && states[0].spec_size()
                == working_grid.spec_size() && states.last()@ == solved@ && states.last().spec_size()
                == solved.spec_size();
        lemma_solution_from_path(states, sol, working_grid);
    }
    let ghost scrambled = working_grid;
    let mut puzzle = create_puzzle_from_grid(&mut working_grid, solution.len() as u8, solution[0]);
    proof {
        lemma_filled_unique(working_grid.spec_size(), working_grid@, scrambled@);
        lemma_solves_same(scrambled, working_grid, sol);
    }
    let check: usize = if generator_settings.check_solution_len < generator_settings.swap_count as usize - 1 {
        generator_settings.check_solution_len
    } else {
        generator_settings.swap_count as usize - 1
    };
    let mut retry: usize = 0;
    let mut current_len: usize = solution.len();
    let ghost mut cur_sol = sol;
    while retry < generator_settings.check_solution_retries
        invariant
            puzzle.wf(),
            puzzle.spec_grid().spec_size() == generator_settings.size,
            working_grid.game_wf(),
            working_grid.spec_size() == generator_settings.size,
            is_filled(working_grid.spec_size(), working_grid@),
            skeleton(play_cells(puzzle.spec_grid()@)) == skeleton(working_grid@),
            1 <= current_len <= generator_settings.swap_count,
            puzzle.spec_swap_limit() == current_len,
            check < generator_settings.swap_count,
            solves(working_grid, cur_sol),
            cur_sol.len() == current_len,
            puzzle.spec_hint() == cur_sol[0].a || puzzle.spec_hint() == cur_sol[0].b,
        decreases generator_settings.check_solution_retries - retry,
    {
        retry = retry + 1;
        match find_solution(&puzzle, check as u8) {
            Some(shorter_solution) => {
                let ghost old_working = working_grid;
                proof {
                    let start = choose|start: Grid<Cell>|
                        #![trigger solves(start, shorter_solution@)]
                        start.game_wf() && start.spec_size() == puzzle.spec_grid().spec_size() && skeleton(start@)
                            == skeleton(play_cells(puzzle.spec_grid()@)) && is_filled(start.spec_size(), start@)
                            && solves(start, shorter_solution@);
                    lemma_filled_unique(start.spec_size(), start@, working_grid@);
                    lemma_solves_same(start, working_grid, shorter_solution@);
                }
                let remaining = reverse_solution(
                    &mut working_grid,
                    generator_settings.swap_count - shorter_solution.len() as u8,
                );
                let ghost rem = remaining@;
                let mut combined = remaining;
                let mut tail = shorter_solution;
                let ghost tail_seq = tail@;
                combined.append(&mut tail);
                proof {
                    assert(combined@ == rem + tail_seq);
                    let states = choose|states: Seq<Grid<Cell>>|
                        #[trigger] play_path(states, rem) && states[0]@ == working_grid@ && states[0].spec_size()
                            == working_grid.spec_size() && states.last()@ == old_working@ && states.last().spec_size()
                            == old_working.spec_size();
                    lemma_solves_concat(states, rem, old_working, tail_seq, working_grid);
                }
                if combined.len() == 0 {
                    return None;
                }
                current_len = combined.len();
                let ghost rescrambled = working_grid;
                puzzle = create_puzzle_from_grid(&mut working_grid, combined.len() as u8, combined[0]);
                proof {
                    lemma_filled_unique(working_grid.spec_size(), working_grid@, rescrambled@);
                    lemma_solves_same(rescrambled, working_grid, combined@);
                    cur_sol = combined@;
                }
            },
            None => {
                break;
            },
        }
    }
    proof {
        assert(solves(working_grid, cur_sol));
        assert(solvable_in(puzzle, puzzle.spec_swap_limit() as nat));
    }
    Some(puzzle)
}

/// A path of swaps from `start` to a solved grid makes a solution from `start`.
proof fn lemma_solution_from_path(states: Seq<Grid<Cell>>, sol: Seq<SwapRecord>, start: Grid<Cell>)
    requires
        play_path(states, sol),
        states[0]@ == start@,
        states[0].spec_size() == start.spec_size(),
        solve_state(states.last().spec_size(), states.last()@) == GridSolveState::Solved,
    ensures
        solves(start, sol),
{
    assert(solution_path(states, sol));
}

/// A path of swaps to a grid, followed by a solution from that grid, is a solution.
proof fn lemma_solves_concat(
    states: Seq<Grid<Cell>>,
    first: Seq<SwapRecord>,
    mid: Grid<Cell>,
    rest: Seq<SwapRecord>,
    start: Grid<Cell>,
)
    requires
        play_path(states, first),
        states[0]@ == start@,
        states[0].spec_size() == start.spec_size(),
        states.last()@ == mid@,
        states.last().spec_size() == mid.spec_size(),
        solves(mid, rest),
    ensures
        solves(start, first + rest),
{
    let ws = choose|ws: Seq<Grid<Cell>>|
        #[trigger] solution_path(ws, rest) && ws[0]@ == mid@ && ws[0].spec_size() == mid.spec_size();
    let n = first.len();
    let all = states.subrange(0, n as int) + ws;
    let sol = first + rest;
    assert(all.len() == sol.len() + 1);
    assert forall|k: int| 0 <= k < sol.len() implies #[trigger] step_ok(all[k], sol[k], all[k + 1]) by {
        if k < n {
            assert(sol[k] == first[k]);
            assert(all[k] == states[k]);
            assert(step_ok(states[k], first[k], states[k + 1]));
            if k + 1 < n {
                assert(all[k + 1] == states[k + 1]);
            } else {
                assert(all[k + 1] == ws[0]);
                assert(states[k + 1] == states.last());
                lemma_step_same_end(states[k], first[k], states[k + 1], ws[0]);
            }
        } else {
            let j = k - n;
            assert(sol[k] == rest[j]);
            assert(all[k] == ws[j]);
            assert(all[k + 1] == ws[j + 1]);
            assert(step_ok(ws[j], rest[j], ws[j + 1]));
        }
    }
    assert(all.last() == ws.last());
    if n == 0 {
        assert(all[0] == ws[0]);
        assert(states[0] == states.last());
    } else {
        assert(all[0] == states[0]);
    }
    assert(solution_path(all, sol));
}

/// A step that ends at a grid ends at any grid with the same cells and size.
proof fn lemma_step_same_end(g: Grid<Cell>, rec: SwapRecord, x: Grid<Cell>, y: Grid<Cell>)
    requires
        step_ok(g, rec, x),
        x@ == y@,
        x.spec_size() == y.spec_size(),
        y.game_wf(),
    ensures
        step_ok(g, rec, y),
{
}

/// Freezes a played grid into a puzzle; the hint is the first move's position
/// that does not hold the swap color.
fn create_puzzle_from_grid(game_grid: &mut Grid<Cell>, swaps: u8, first_move: SwapRecord) -> (r: Puzzle)
    requires
        old(game_grid).game_wf(),
    ensures
        final(game_grid).game_wf(),
        final(game_grid).spec_size() == old(game_grid).spec_size(),
        skeleton(final(game_grid)@) == skeleton(old(game_grid)@),
        is_filled(final(game_grid).spec_size(), final(game_grid)@),
        r.wf(),
        r.spec_grid().spec_size() == old(game_grid).spec_size(),
        skeleton(play_cells(r.spec_grid()@)) == skeleton(final(game_grid)@),
        r.spec_swap_limit() == swaps,
        r.spec_hint() == (if final(game_grid).at(first_move.a) is Some && final(game_grid).at(
            first_move.a,
        ).unwrap().has_color(Color::SWAP) {
            first_move.b
        } else {
            first_move.a
        }),
{
    game_grid.fill();
    let hint = match game_grid.get(first_move.a) {
        Some(cell) => if cell.has_color_in_any_layer(Color::SWAP) {
            first_move.b
        } else {
            first_move.a
        },
        None => first_move.a,
    };
    let size = game_grid.size();
    let mut grid: Grid<PuzzleCell> = Grid::with_size(size);
    let n = size.width * size.height;
    let mut li: usize = 0;
    while li < n
        invariant
            game_grid.game_wf(),
            game_grid.spec_size() == size,
            grid.wf(),
            grid.spec_size() == size,
            n == game_grid@.len(),
            li <= n,
            forall|j: int| 0 <= j < li ==> #[trigger] grid@[j] == match game_grid@[j] {
                Some(c) => Some(c.spec_to_puzzle_cell()),
                None => None,
            },
            forall|j: int| li <= j < n ==> (#[trigger] grid@[j]) is None,
        decreases n - li,
    {
        match game_grid.get_at_linear(li) {
            Some(cell) => grid.set_at_linear(li, Some(cell.to_puzzle_cell())),
            None => {},
        }
        li = li + 1;
    }
    proof {
        lemma_skeleton_cells(game_grid@);
        lemma_skeleton_cells(play_cells(grid@));
        assert forall|j: int| 0 <= j < n implies skeleton(play_cells(grid@))[j] == skeleton(game_grid@)[j] by {
            if game_grid@[j] is Some {
                lemma_puzzle_cell_round_trip(game_grid@[j].unwrap());
            }
        }
        assert(skeleton(play_cells(grid@)) =~= skeleton(game_grid@));
    }
    Puzzle::new(grid, swaps, hint)
}

/// Whether the forward swap of a record, made from the grid, is allowed and
/// gives each cell the rotation the record holds.
fn swap_record_matches(grid: &Grid<Cell>, record: SwapRecord) -> (r: bool)
    requires
        grid.wf(),
        grid.at(record.a) is Some,
        grid.at(record.b) is Some,
    ensures
        r == (Cell::spec_can_swap(grid.at(record.a).unwrap(), grid.at(record.b).unwrap()) && grid.at(
            record.a,
        ).unwrap().spec_rotation_for_fill() == record.a_rotation && grid.at(record.b).unwrap().spec_rotation_for_fill()
            == record.b_rotation),
{
    let cell_a = grid.get(record.a).unwrap();
    let cell_b = grid.get(record.b).unwrap();
    Cell::can_swap(cell_a, cell_b) && cell_a.rotation_for_fill() == record.a_rotation && cell_b.rotation_for_fill()
        == record.b_rotation
}

/// Undoing the record would change nothing worth a move: both cells are
/// single-layered with the same source, and each turned back matches the other.
pub open spec fn is_trivial(a: Cell, b: Cell, record: SwapRecord) -> bool {
    &&& a.spec_source() == b.spec_source()
    &&& a.layer_count() == 1
    &&& b.layer_count() == 1
    &&& a.layer(0).unwrap().connections == b.layer(0).unwrap().connections.spec_rotated(record.a_rotation.spec_inverse())
    &&& b.layer(0).unwrap().connections == a.layer(0).unwrap().connections.spec_rotated(record.b_rotation.spec_inverse())
}

/// The forward swap of a record, made from `g1`, is allowed and gives each cell
/// the rotation the record holds.
pub open spec fn forward_matches(g1: Grid<Cell>, record: SwapRecord) -> bool {
    &&& g1.at(record.a) is Some
    &&& g1.at(record.b) is Some
    &&& Cell::spec_can_swap(g1.at(record.a).unwrap(), g1.at(record.b).unwrap())
    &&& g1.at(record.a).unwrap().spec_rotation_for_fill() == record.a_rotation
    &&& g1.at(record.b).unwrap().spec_rotation_for_fill() == record.b_rotation
}

/// Undoing the record on `g` and filling again gives a grid from which the
/// record's forward swap matches.
pub open spec fn reverse_ok(g: Grid<Cell>, record: SwapRecord) -> bool {
    exists|g1: Grid<Cell>|
        #![trigger forward_matches(g1, record)]
        g1.game_wf() && g1.spec_size() == g.spec_size() && skeleton(g1@) == skeleton(undo_result(g, record))
            && is_filled(g1.spec_size(), g1@) && forward_matches(g1, record)
}

/// The cell at `i` exists and is not a stop-colored source.
pub open spec fn movable(g: Grid<Cell>, i: GridIndex) -> bool {
    g.at(i) is Some && g.at(i).unwrap().spec_source() != Some(Color::Red)
}

/// Tries one reverse swap: unless the two positions are the same or the move is
/// trivial, the record is undone on the grid and the grid filled again; the try
/// is kept when the forward swap then matches the record, and rolled back
/// otherwise.
fn try_reverse_swap(grid: &mut Grid<Cell>, record: SwapRecord) -> (r: bool)
    requires
        old(grid).game_wf(),
        is_filled(old(grid).spec_size(), old(grid)@),
        old(grid).at(record.a) is Some,
        old(grid).at(record.b) is Some,
    ensures
        final(grid).game_wf(),
        final(grid).spec_size() == old(grid).spec_size(),
        is_filled(final(grid).spec_size(), final(grid)@),
        r == (record.a != record.b && !is_trivial(old(grid).at(record.a).unwrap(), old(grid).at(record.b).unwrap(), record)
            && reverse_ok(*old(grid), record)),
        r ==> step_ok(*final(grid), record, *old(grid)),
        !r ==> final(grid)@ == old(grid)@,
{
    let ghost g0 = *grid;
    let a = record.a;
    let b = record.b;
    if a == b || swap_is_trivial(grid, record) {
        return false;
    }
    proof {
        lemma_index_of_lin(g0.spec_size(), a);
        lemma_index_of_lin(g0.spec_size(), b);
    }
    grid.undo_swap(record);
    grid.fill();
    let ghost g1 = *grid;
    proof {
        lemma_reverse_positions(g0, g1, record);
    }
    if swap_record_matches(grid, record) {
        proof {
            lemma_reverse_step(g0, g1, record);
            assert(forward_matches(g1, record));
        }
        return true;
    }
    proof {
        if reverse_ok(g0, record) {
            let h = choose|h: Grid<Cell>|
                #![trigger forward_matches(h, record)]
                h.game_wf() && h.spec_size() == g0.spec_size() && skeleton(h@) == skeleton(undo_result(g0, record))
                    && is_filled(h.spec_size(), h@) && forward_matches(h, record);
            lemma_filled_unique(g0.spec_size(), h@, g1@);
        }
        lemma_turned_skeleton(g1, g1, a, record.a_rotation, b, record.b_rotation);
        lemma_reverse_rollback(g0, g1, record);
    }
    swap_without_fill(grid, a, record.a_rotation, b, record.b_rotation);
    grid.fill();
    proof {
        lemma_filled_unique(g0.spec_size(), grid@, g0@);
    }
    false
}

/// Whether undoing a record would change nothing worth a move.
fn swap_is_trivial(grid: &Grid<Cell>, record: SwapRecord) -> (r: bool)
    requires
        grid.wf(),
        grid.at(record.a) is Some,
        grid.at(record.b) is Some,
    ensures
        r == is_trivial(grid.at(record.a).unwrap(), grid.at(record.b).unwrap(), record),
{
    let a = grid.get(record.a).unwrap();
    let b = grid.get(record.b).unwrap();
    if a.source() != b.source() {
        return false;
    }
    if a.get_layer_count() != b.get_layer_count() {
        return false;
    }
    let layers_a = a.iter_layers();
    let layers_b = b.iter_layers();
    if layers_a.len() == 1 {
        layers_a[0].connections == layers_b[0].connections.rotated(record.a_rotation.inverse())
            && layers_b[0].connections == layers_a[0].connections.rotated(record.b_rotation.inverse())
    } else {
        false
    }
}

/// Scrambles a filled grid by up to `swaps` reverse swaps, and returns them in
/// the order that undoes the scrambling: played forward from the scrambled grid,
/// they lead back to the grid as it was.
fn reverse_solution(grid: &mut Grid<Cell>, swaps: u8) -> (r: Vec<SwapRecord>)
    requires
        old(grid).game_wf(),
        is_filled(old(grid).spec_size(), old(grid)@),
    ensures
        final(grid).game_wf(),
        final(grid).spec_size() == old(grid).spec_size(),
        is_filled(final(grid).spec_size(), final(grid)@),
        r@.len() <= swaps,
        exists|states: Seq<Grid<Cell>>|
            #[trigger] play_path(states, r@) && states[0]@ == final(grid)@ && states[0].spec_size()
                == final(grid).spec_size() && states.last()@ == old(grid)@ && states.last().spec_size()
                == old(grid).spec_size(),
{
    let ghost g0 = *grid;
    let mut solution: Vec<SwapRecord> = Vec::new();
    let ghost mut states_rev: Seq<Grid<Cell>> = seq![*grid];
    let mut i: u8 = 0;
    while i < swaps
        invariant
            grid.game_wf(),
            grid.spec_size() == g0.spec_size(),
            is_filled(grid.spec_size(), grid@),
            g0 == *old(grid),
            i <= swaps,
            solution@.len() <= i,
            states_rev.len() == solution@.len() + 1,
            states_rev[0] == g0,
            states_rev.last()@ == grid@,
            states_rev.last().spec_size() == grid.spec_size(),
            states_rev.last().game_wf(),
            forall|k: int|
                0 <= k < solution@.len() ==> #[trigger] step_ok(states_rev[k + 1], solution@[k], states_rev[k]),
        decreases swaps - i,
    {
        i = i + 1;
        let ghost before = *grid;
        match reverse_swap(grid) {
            Some(record) => {
                solution.push(record);
                proof {
                    lemma_step_same_end(*grid, record, before, states_rev.last());
                    states_rev = states_rev.push(*grid);
                    assert forall|k: int|
                        0 <= k < solution@.len() implies #[trigger] step_ok(states_rev[k + 1], solution@[k], states_rev[k]) by {
                        if k < solution@.len() - 1 {
                            assert(solution@[k] == solution@.drop_last()[k]);
                        }
                    }
                }
            },
            None => {
                break;
            },
        }
    }
    let mut result: Vec<SwapRecord> = Vec::new();
    let mut j: usize = solution.len();
    while j > 0
        invariant
            j <= solution@.len(),
            result@.len() == solution@.len() - j,
            forall|k: int| 0 <= k < result@.len() ==> #[trigger] result@[k] == solution@[solution@.len() - 1 - k],
        decreases j,
    {
        j = j - 1;
        result.push(solution[j]);
    }
    proof {
        let n = solution@.len() as int;
        let states = Seq::new((n + 1) as nat, |k: int| states_rev[n - k]);
        assert forall|k: int| 0 <= k < result@.len() implies #[trigger] step_ok(states[k], result@[k], states[k + 1]) by {
            let m = n - 1 - k;
            assert(step_ok(states_rev[m + 1], solution@[m], states_rev[m]));
        }
        assert(play_path(states, result@));
        assert(states[0] == states_rev.last());
        assert(states.last() == states_rev[0]);
        assert(states[0]@ == grid@);
    }
    result
}

/// Tries, up to 999 times, a random reverse swap of two cells that are not stop
/// sources, with random rotations from those the grid's colors make possible; a
/// try is kept when the forward swap from the new grid leads back. A kept try
/// changes the grid; otherwise the grid is left as it was.
fn reverse_swap(grid: &mut Grid<Cell>) -> (r: Option<SwapRecord>)
    requires
        old(grid).game_wf(),
        is_filled(old(grid).spec_size(), old(grid)@),
    ensures
        final(grid).game_wf(),
        final(grid).spec_size() == old(grid).spec_size(),
        is_filled(final(grid).spec_size(), final(grid)@),
        r is Some ==> step_ok(*final(grid), r.unwrap(), *old(grid)),
        r is Some ==> movable(*old(grid), r.unwrap().a) && movable(*old(grid), r.unwrap().b) && r.unwrap().a
            != r.unwrap().b && !is_trivial(old(grid).at(r.unwrap().a).unwrap(), old(grid).at(r.unwrap().b).unwrap(), r.unwrap())
            && reverse_ok(*old(grid), r.unwrap()),
        (forall|a: GridIndex, b: GridIndex| movable(*old(grid), a) && movable(*old(grid), b) ==> a == b) ==> r is None,
        r is None ==> final(grid)@ == old(grid)@,
{
    let ghost g0 = *grid;
    let mut possible_rotations: Vec<Rotation> = vec![Rotation::Identity];
    if any_cell_has(grid, Color::CCW) {
        possible_rotations.push(Rotation::CounterClockwise);
    }
    if any_cell_has(grid, Color::CW) {
        possible_rotations.push(Rotation::Clockwise);
    }
    let entries = grid.iter();
    let mut positions: Vec<GridIndex> = Vec::new();
    let mut k: usize = 0;
    while k < entries.len()
        invariant
            grid.wf(),
            k <= entries@.len(),
            forall|j: int| 0 <= j < entries@.len() ==> grid.at((#[trigger] entries@[j]).0) == Some(entries@[j].1),
            forall|j: int| 0 <= j < positions@.len() ==> movable(*grid, #[trigger] positions@[j]),
        decreases entries@.len() - k,
    {
        let (p, c) = entries[k];
        assert(grid.at(entries@[k as int].0) == Some(entries@[k as int].1));
        if c.source() != Some(Color::Red) {
            positions.push(p);
        }
        k = k + 1;
    }
    if positions.len() < 2 {
        return None;
    }
    let mut attempt: usize = 0;
    while attempt < 999
        invariant
            grid.game_wf(),
            grid.spec_size() == g0.spec_size(),
            grid@ == g0@,
            g0 == *old(grid),
            is_filled(grid.spec_size(), grid@),
            positions@.len() >= 2,
            possible_rotations@.len() >= 1,
            forall|j: int| 0 <= j < positions@.len() ==> movable(g0, #[trigger] positions@[j]),
        decreases 999 - attempt,
    {
        attempt = attempt + 1;
        let (i, j) = sample_two(positions.len());
        let a = positions[i];
        let b = positions[j];
        assert(movable(g0, a) && movable(g0, b));
        let a_rotation = possible_rotations[random_below(possible_rotations.len())];
        let b_rotation = possible_rotations[random_below(possible_rotations.len())];
        let record = SwapRecord::new(a, b, a_rotation, b_rotation);
        let ghost before = *grid;
        proof {
            lemma_same_grid(before, g0, record);
        }
        if try_reverse_swap(grid, record) {
            proof {
                lemma_step_same_end(*grid, record, before, g0);
            }
            return Some(record);
        }
    }
    None
}

/// Grids with the same cells and size agree on what is reversed and matched.
proof fn lemma_same_grid(x: Grid<Cell>, y: Grid<Cell>, record: SwapRecord)
    requires
        x@ == y@,
        x.spec_size() == y.spec_size(),
    ensures
        undo_result(x, record) == undo_result(y, record),
        reverse_ok(x, record) == reverse_ok(y, record),
        forall|i: GridIndex| #[trigger] x.at(i) == y.at(i),
{
}

/// Whether some cell of the grid holds a color in some layer.
fn any_cell_has(grid: &Grid<Cell>, color: Color) -> (r: bool)
    requires
        grid.wf(),
    ensures
        r == exists|i: GridIndex| #[trigger] grid.at(i) is Some && grid.at(i).unwrap().has_color(color),
{
    let entries = grid.iter();
    let mut k: usize = 0;
    while k < entries.len()
        invariant
            grid.wf(),
            k <= entries@.len(),
            forall|j: int| 0 <= j < entries@.len() ==> grid.at((#[trigger] entries@[j]).0) == Some(entries@[j].1),
            forall|j: int| 0 <= j < k ==> !(#[trigger] entries@[j]).1.has_color(color),
        decreases entries@.len() - k,
    {
        if entries[k].1.has_color_in_any_layer(color) {
            assert(grid.at(entries@[k as int].0) is Some);
            return true;
        }
        k = k + 1;
    }
    proof {
        assert forall|i: GridIndex| !(#[trigger] grid.at(i) is Some && grid.at(i).unwrap().has_color(color)) by {
            if grid.at(i) is Some {
                let j = choose|j: int| 0 <= j < entries@.len() && entries@[j].0 == i;
                assert(grid.at(entries@[j].0) == Some(entries@[j].1));
            }
        }
    }
    false
}

/// After undoing a record and filling, both positions still hold cells.
proof fn lemma_reverse_positions(g0: Grid<Cell>, g1: Grid<Cell>, rec: SwapRecord)
    requires
        g0.game_wf(),
        g0.at(rec.a) is Some,
        g0.at(rec.b) is Some,
        rec.a != rec.b,
        g1.spec_size() == g0.spec_size(),
        g1.wf(),
        skeleton(g1@) == skeleton(undo_result(g0, rec)),
    ensures
        g1.at(rec.a) is Some,
        g1.at(rec.b) is Some,
{
    let size = g0.spec_size();
    lemma_lin_bounds(size, rec.a);
    lemma_lin_bounds(size, rec.b);
    lemma_skeleton_cells(g1@);
    lemma_skeleton_cells(undo_result(g0, rec));
    assert(skeleton(g1@)[lin(size, rec.a)] == skeleton(undo_result(g0, rec))[lin(size, rec.a)]);
    assert(skeleton(g1@)[lin(size, rec.b)] == skeleton(undo_result(g0, rec))[lin(size, rec.b)]);
}

/// When the record's forward swap is allowed from the scrambled grid, it leads
/// back to the grid before the scrambling.
proof fn lemma_reverse_step(g0: Grid<Cell>, g1: Grid<Cell>, rec: SwapRecord)
    requires
        g0.game_wf(),
        is_filled(g0.spec_size(), g0@),
        g0.at(rec.a) is Some,
        g0.at(rec.b) is Some,
        rec.a != rec.b,
        g1.game_wf(),
        g1.spec_size() == g0.spec_size(),
        skeleton(g1@) == skeleton(undo_result(g0, rec)),
        is_filled(g1.spec_size(), g1@),
        g1.at(rec.a) is Some,
        g1.at(rec.b) is Some,
        Cell::spec_can_swap(g1.at(rec.a).unwrap(), g1.at(rec.b).unwrap()),
        g1.at(rec.a).unwrap().spec_rotation_for_fill() == rec.a_rotation,
        g1.at(rec.b).unwrap().spec_rotation_for_fill() == rec.b_rotation,
    ensures
        step_ok(g1, rec, g0),
{
    let size = g0.spec_size();
    let a = rec.a;
    let b = rec.b;
    lemma_index_of_lin(size, a);
    lemma_index_of_lin(size, b);
    let la = lin(size, a);
    let lb = lin(size, b);
    let u = undo_result(g0, rec);
    let sr = swap_result(g1, a, b);
    lemma_skeleton_cells(g0@);
    lemma_skeleton_cells(g1@);
    lemma_skeleton_cells(u);
    lemma_skeleton_cells(sr);
    let ca = g0@[la].unwrap();
    let cb = g0@[lb].unwrap();
    let ra = rec.a_rotation;
    let rb = rec.b_rotation;
    assert(skeleton(g1@)[la] == skeleton(u)[la]);
    assert(skeleton(g1@)[lb] == skeleton(u)[lb]);
    let xa = g1@[la].unwrap();
    let xb = g1@[lb].unwrap();
    lemma_cell_rotate_wf(cb, ra.spec_inverse());
    lemma_cell_rotate_wf(ca, rb.spec_inverse());
    lemma_cell_rotate_wf(xa, ra);
    lemma_cell_rotate_wf(xb, rb);
    lemma_cell_rotate_inverse(ca.cleared().spec_rotate(rb.spec_inverse()), rb.spec_inverse().spec_inverse());
    lemma_rotation_double_inverse(ra);
    lemma_rotation_double_inverse(rb);
    lemma_cell_rotate_inverse(ca.cleared(), rb.spec_inverse());
    lemma_cell_rotate_inverse(cb.cleared(), ra.spec_inverse());
    assert(xb.cleared() == ca.cleared().spec_rotate(rb.spec_inverse()));
    assert(xa.cleared() == cb.cleared().spec_rotate(ra.spec_inverse()));
    assert forall|j: int| 0 <= j < sr.len() implies skeleton(sr)[j] == skeleton(g0@)[j] by {
        if j != la && j != lb {
            assert(skeleton(g1@)[j] == skeleton(u)[j]);
        }
    }
    assert(skeleton(sr) =~= skeleton(g0@));
}

/// Rolling a rejected try back restores the structure of the grid before it.
proof fn lemma_reverse_rollback(g0: Grid<Cell>, g1: Grid<Cell>, rec: SwapRecord)
    requires
        g0.game_wf(),
        g0.at(rec.a) is Some,
        g0.at(rec.b) is Some,
        rec.a != rec.b,
        g1.game_wf(),
        g1.spec_size() == g0.spec_size(),
        skeleton(g1@) == skeleton(undo_result(g0, rec)),
        g1.at(rec.a) is Some,
        g1.at(rec.b) is Some,
    ensures
        skeleton(turned_and_swapped(g1, rec.a, rec.a_rotation, rec.b, rec.b_rotation)) == skeleton(g0@),
{
    let size = g0.spec_size();
    let a = rec.a;
    let b = rec.b;
    lemma_index_of_lin(size, a);
    lemma_index_of_lin(size, b);
    let la = lin(size, a);
    let lb = lin(size, b);
    let u = undo_result(g0, rec);
    let t = turned_and_swapped(g1, a, rec.a_rotation, b, rec.b_rotation);
    lemma_skeleton_cells(g0@);
    lemma_skeleton_cells(g1@);
    lemma_skeleton_cells(u);
    lemma_skeleton_cells(t);
    let ca = g0@[la].unwrap();
    let cb = g0@[lb].unwrap();
    let ra = rec.a_rotation;
    let rb = rec.b_rotation;
    assert(skeleton(g1@)[la] == skeleton(u)[la]);
    assert(skeleton(g1@)[lb] == skeleton(u)[lb]);
    let xa = g1@[la].unwrap();
    let xb = g1@[lb].unwrap();
    lemma_cell_rotate_wf(cb, ra.spec_inverse());
    lemma_cell_rotate_wf(ca, rb.spec_inverse());
    lemma_cell_rotate_wf(xa, ra);
    lemma_cell_rotate_wf(xb, rb);
    lemma_rotation_double_inverse(ra);
    lemma_rotation_double_inverse(rb);
    lemma_cell_rotate_inverse(ca.cleared(), rb.spec_inverse());
    lemma_cell_rotate_inverse(cb.cleared(), ra.spec_inverse());
    assert forall|j: int| 0 <= j < t.len() implies skeleton(t)[j] == skeleton(g0@)[j] by {
        if j != la && j != lb {
            assert(skeleton(g1@)[j] == skeleton(u)[j]);
        }
    }
    assert(skeleton(t) =~= skeleton(g0@));
}

/// The inverse of the inverse of a rotation is the rotation.
proof fn lemma_rotation_double_inverse(r: Rotation)
    ensures
        r.spec_inverse().spec_inverse() == r,
{
}

} // verus!
