//! Searching for sequences of swaps that solve a puzzle.

use vstd::prelude::*;

use crate::cell::{lemma_cell_rotate_inverse, lemma_cell_rotate_wf, Cell, SwapRecord};
use crate::direction::Rotation;
use crate::game_grid::{
    can_swap_at, is_filled, lemma_filled_unique, lemma_skeleton_cells, play_cells, skeleton, solve_state, swap_record_of, swap_result,
    GridSolveState,
};
use crate::grid::{get_linear_index, lemma_index_of_lin, lemma_lin_bounds, lin, Grid, GridIndex};
use crate::puzzle::Puzzle;

verus! {

/// `next` is what a swap recorded as `rec` leaves of the filled grid `g`.
pub open spec fn step_ok(g: Grid<Cell>, rec: SwapRecord, next: Grid<Cell>) -> bool {
    &&& can_swap_at(g, rec.a, rec.b)
    &&& rec == swap_record_of(g, rec.a, rec.b)
    &&& next.game_wf()
    &&& next.spec_size() == g.spec_size()
    &&& skeleton(next@) == skeleton(swap_result(g, rec.a, rec.b))
    &&& is_filled(next.spec_size(), next@)
}

/// The grids `states` are what playing `sol` in order leaves, and the last one is solved.
pub open spec fn solution_path(states: Seq<Grid<Cell>>, sol: Seq<SwapRecord>) -> bool {
    &&& states.len() == sol.len() + 1
    &&& forall|k: int| 0 <= k < sol.len() ==> #[trigger] step_ok(states[k], sol[k], states[k + 1])
    &&& solve_state(states.last().spec_size(), states.last()@) == GridSolveState::Solved
}

/// Playing `sol` from the filled grid `g` solves it.
pub open spec fn solves(g: Grid<Cell>, sol: Seq<SwapRecord>) -> bool {
    exists|states: Seq<Grid<Cell>>|
        #[trigger] solution_path(states, sol) && states[0]@ == g@ && states[0].spec_size() == g.spec_size()
}

/// The cells after turning the cells at `a` and `b` and trading their places.
pub open spec fn turned_and_swapped(
    g: Grid<Cell>,
    a: GridIndex,
    rotate_a: Rotation,
    b: GridIndex,
    rotate_b: Rotation,
) -> Seq<Option<Cell>> {
    g@.update(lin(g.spec_size(), a), Some(g.at(b).unwrap().spec_rotate(rotate_b))).update(
        lin(g.spec_size(), b),
        Some(g.at(a).unwrap().spec_rotate(rotate_a)),
    )
}

/// Turns the cells at `a` and `b`, then trades their places, leaving fills as they were.
pub(crate) fn swap_without_fill(grid: &mut Grid<Cell>, a: GridIndex, rotate_a: Rotation, b: GridIndex, rotate_b: Rotation)
    requires
        old(grid).game_wf(),
        old(grid).at(a) is Some,
        old(grid).at(b) is Some,
        a != b,
    ensures
        final(grid).game_wf(),
        final(grid).spec_size() == old(grid).spec_size(),
        final(grid)@ == turned_and_swapped(*old(grid), a, rotate_a, b, rotate_b),
{
    let size = grid.size();
    let la = get_linear_index(size, a).unwrap();
    let lb = get_linear_index(size, b).unwrap();
    let mut cell_a = grid.get_at_linear(la).unwrap();
    let mut cell_b = grid.get_at_linear(lb).unwrap();
    proof {
        lemma_cell_rotate_wf(cell_a, rotate_a);
        lemma_cell_rotate_wf(cell_b, rotate_b);
    }
    cell_a.rotate(rotate_a);
    cell_b.rotate(rotate_b);
    grid.set_at_linear(la, Some(cell_b));
    grid.set_at_linear(lb, Some(cell_a));
}

/// Turning and swapping grids of the same structure gives grids of the same structure.
pub(crate) proof fn lemma_turned_skeleton(
    x: Grid<Cell>,
    y: Grid<Cell>,
    a: GridIndex,
    rotate_a: Rotation,
    b: GridIndex,
    rotate_b: Rotation,
)
    requires
        x.game_wf(),
        y.game_wf(),
        x.spec_size() == y.spec_size(),
        skeleton(x@) == skeleton(y@),
        x.at(a) is Some,
        x.at(b) is Some,
    ensures
        y.at(a) is Some,
        y.at(b) is Some,
        skeleton(turned_and_swapped(x, a, rotate_a, b, rotate_b)) == skeleton(
            turned_and_swapped(y, a, rotate_a, b, rotate_b),
        ),
{
    let size = x.spec_size();
    lemma_lin_bounds(size, a);
    lemma_lin_bounds(size, b);
    lemma_skeleton_cells(x@);
    lemma_skeleton_cells(y@);
    let la = lin(size, a);
    let lb = lin(size, b);
    assert(skeleton(x@)[la] == skeleton(y@)[la]);
    assert(skeleton(x@)[lb] == skeleton(y@)[lb]);
    let tx = turned_and_swapped(x, a, rotate_a, b, rotate_b);
    let ty = turned_and_swapped(y, a, rotate_a, b, rotate_b);
    lemma_skeleton_cells(tx);
    lemma_skeleton_cells(ty);
    lemma_cell_rotate_wf(x@[la].unwrap(), rotate_a);
    lemma_cell_rotate_wf(y@[la].unwrap(), rotate_a);
    lemma_cell_rotate_wf(x@[lb].unwrap(), rotate_b);
    lemma_cell_rotate_wf(y@[lb].unwrap(), rotate_b);
    assert forall|j: int| 0 <= j < tx.len() implies skeleton(tx)[j] == skeleton(ty)[j] by {
        if j != la && j != lb {
            assert(skeleton(x@)[j] == skeleton(y@)[j]);
        }
    }
    assert(skeleton(tx) =~= skeleton(ty));
}

/// A swap between the same two positions as `r`, in either order.
pub open spec fn same_move(r: SwapRecord, a: GridIndex, b: GridIndex) -> bool {
    (r.a == a && r.b == b) || (r.a == b && r.b == a)
}

/// Some record of the list swaps `p` with `q`, in that order.
pub open spec fn pair_found(swaps: Seq<SwapRecord>, p: GridIndex, q: GridIndex) -> bool {
    exists|k: int| 0 <= k < swaps.len() && #[trigger] swaps[k].a == p && swaps[k].b == q
}

/// The pair of entries `p`, `q` is listed when it may be swapped.
pub open spec fn covered(entries: Seq<(GridIndex, Cell)>, swaps: Seq<SwapRecord>, p: int, q: int) -> bool {
    entries[p].0 != entries[q].0 && Cell::spec_can_swap(entries[p].1, entries[q].1) ==> pair_found(
        swaps,
        entries[p].0,
        entries[q].0,
    )
}

/// Every swap that can be made on a filled grid, each pair once, earlier position first.
fn get_possible_swaps(grid: &Grid<Cell>) -> (r: Vec<SwapRecord>)
    requires
        grid.game_wf(),
    ensures
        forall|k: int|
            0 <= k < r@.len() ==> can_swap_at(*grid, (#[trigger] r@[k]).a, r@[k].b) && r@[k] == swap_record_of(
                *grid,
                r@[k].a,
                r@[k].b,
            ),
        forall|a: GridIndex, b: GridIndex|
            #[trigger] can_swap_at(*grid, a, b) ==> exists|k: int| 0 <= k < r@.len() && same_move(r@[k], a, b),
{
    let entries = grid.iter();
    let mut swaps: Vec<SwapRecord> = Vec::new();
    let mut i: usize = 0;
    while i < entries.len()
        invariant
            grid.game_wf(),
            i <= entries@.len(),
            forall|k: int| 0 <= k < entries@.len() ==> grid.at((#[trigger] entries@[k]).0) == Some(entries@[k].1),
            forall|k: int|
                0 <= k < swaps@.len() ==> can_swap_at(*grid, (#[trigger] swaps@[k]).a, swaps@[k].b)
                    && swaps@[k] == swap_record_of(*grid, swaps@[k].a, swaps@[k].b),
            forall|p: int, q: int| 0 <= p < i && p < q < entries@.len() ==> #[trigger] covered(entries@, swaps@, p, q),
        decreases entries@.len() - i,
    {
        let entry_i = entries[i];
        let mut j: usize = i + 1;
        while j < entries.len()
            invariant
                grid.game_wf(),
                i < entries@.len(),
                i < j <= entries@.len(),
                entry_i == entries@[i as int],
                forall|k: int| 0 <= k < entries@.len() ==> grid.at((#[trigger] entries@[k]).0) == Some(entries@[k].1),
                forall|k: int|
                    0 <= k < swaps@.len() ==> can_swap_at(*grid, (#[trigger] swaps@[k]).a, swaps@[k].b)
                        && swaps@[k] == swap_record_of(*grid, swaps@[k].a, swaps@[k].b),
                forall|p: int, q: int| 0 <= p < i && p < q < entries@.len() ==> #[trigger] covered(entries@, swaps@, p, q),
                forall|q: int| i < q < j ==> #[trigger] covered(entries@, swaps@, i as int, q),
            decreases entries@.len() - j,
        {
            let entry_j = entries[j];
            assert(grid.at(entry_i.0) == Some(entry_i.1));
            assert(grid.at(entry_j.0) == Some(entry_j.1));
            if entry_i.0 != entry_j.0 && Cell::can_swap(&entry_i.1, &entry_j.1) {
                let record = SwapRecord::new(
                    entry_i.0,
                    entry_j.0,
                    entry_i.1.rotation_for_fill(),
                    entry_j.1.rotation_for_fill(),
                );
                let ghost old_swaps = swaps@;
                swaps.push(record);
                proof {
                    assert forall|k: int|
                        0 <= k < swaps@.len() implies can_swap_at(*grid, (#[trigger] swaps@[k]).a, swaps@[k].b)
                        && swaps@[k] == swap_record_of(*grid, swaps@[k].a, swaps@[k].b) by {
                        if k < old_swaps.len() {
                            assert(swaps@[k] == old_swaps[k]);
                        }
                    }
                    assert(swaps@[old_swaps.len() as int] == record);
                    assert forall|p: int, q: int|
                        0 <= p < i && p < q < entries@.len() implies #[trigger] covered(entries@, swaps@, p, q) by {
                        assert(covered(entries@, old_swaps, p, q));
                        if entries@[p].0 != entries@[q].0 && Cell::spec_can_swap(entries@[p].1, entries@[q].1) {
                            let k = choose|k: int| 0 <= k < old_swaps.len() && #[trigger] old_swaps[k].a == entries@[p].0
                                && old_swaps[k].b == entries@[q].0;
                            assert(swaps@[k] == old_swaps[k]);
                        }
                    }
                    assert forall|q: int| i < q < j + 1 implies #[trigger] covered(entries@, swaps@, i as int, q) by {
                        if q < j {
                            assert(covered(entries@, old_swaps, i as int, q));
                            if entries@[i as int].0 != entries@[q].0 && Cell::spec_can_swap(entries@[i as int].1, entries@[q].1) {
                                let k = choose|k: int| 0 <= k < old_swaps.len() && #[trigger] old_swaps[k].a
                                    == entries@[i as int].0 && old_swaps[k].b == entries@[q].0;
                                assert(swaps@[k] == old_swaps[k]);
                            }
                        } else {
                            assert(swaps@[old_swaps.len() as int].a == entries@[i as int].0);
                        }
                    }
                }
            }
            j = j + 1;
        }
        i = i + 1;
    }
    proof {
        assert forall|a: GridIndex, b: GridIndex|
            #[trigger] can_swap_at(*grid, a, b) implies exists|k: int| 0 <= k < swaps@.len() && same_move(swaps@[k], a, b) by {
            let ka = choose|k: int| 0 <= k < entries@.len() && entries@[k].0 == a;
            let kb = choose|k: int| 0 <= k < entries@.len() && entries@[k].0 == b;
            assert(grid.at(entries@[ka].0) == Some(entries@[ka].1));
            assert(grid.at(entries@[kb].0) == Some(entries@[kb].1));
            if ka < kb {
                assert(covered(entries@, swaps@, ka, kb));
                let k = choose|k: int| 0 <= k < swaps@.len() && #[trigger] swaps@[k].a == a && swaps@[k].b == b;
                assert(same_move(swaps@[k], a, b));
            } else {
                assert(ka != kb);
                assert(covered(entries@, swaps@, kb, ka));
                let k = choose|k: int| 0 <= k < swaps@.len() && #[trigger] swaps@[k].a == b && swaps@[k].b == a;
                assert(same_move(swaps@[k], a, b));
            }
        }
    }
    swaps
}

/// A search for a shortest sequence of at most `maximum_swaps` swaps that solves
/// the puzzle from its start: bounded depth-first searches with the bound
/// raised one swap at a time. The empty sequence exactly when the puzzle starts
/// solved; `None` exactly when no sequence within the bound solves it.
pub fn find_solution(puzzle: &Puzzle, maximum_swaps: u8) -> (r: Option<Vec<SwapRecord>>)
    requires
        puzzle.wf(),
    ensures
        r is Some ==> r.unwrap()@.len() <= maximum_swaps && exists|start: Grid<Cell>|
            #![trigger solves(start, r.unwrap()@)]
            start.game_wf() && start.spec_size() == puzzle.spec_grid().spec_size() && skeleton(start@) == skeleton(
                play_cells(puzzle.spec_grid()@),
            ) && is_filled(start.spec_size(), start@) && solves(start, r.unwrap()@),
        r is Some && r.unwrap()@.len() > 0 ==> no_solution_within(*puzzle, (r.unwrap()@.len() - 1) as nat),
        (r is Some && r.unwrap()@.len() == 0) <==> !no_solution_within(*puzzle, 0),
        r is None ==> no_solution_within(*puzzle, maximum_swaps as nat),
{
    let mut grid = Grid::from_puzzle_grid(puzzle.start());
    let ghost start = grid;
    assert(start.game_wf() && start.spec_size() == puzzle.spec_grid().spec_size() && skeleton(start@) == skeleton(
        play_cells(puzzle.spec_grid()@),
    ) && is_filled(start.spec_size(), start@));
    if grid.is_solved() == GridSolveState::Solved {
        let sol: Vec<SwapRecord> = Vec::new();
        proof {
            let states = seq![start];
            assert(solution_path(states, sol@));
            assert(solves(start, sol@));
        }
        return Some(sol);
    }
    proof {
        lemma_no_solution_from(*puzzle, start, 0);
    }
    let mut depth: u16 = 1;
    while depth <= maximum_swaps as u16
        invariant
            1 <= depth <= maximum_swaps as u16 + 1,
            puzzle.wf(),
            grid.game_wf(),
            grid.spec_size() == start.spec_size(),
            skeleton(grid@) == skeleton(start@),
            start.game_wf(),
            is_filled(start.spec_size(), start@),
            solve_state(start.spec_size(), start@) != GridSolveState::Solved,
            start.spec_size() == puzzle.spec_grid().spec_size(),
            skeleton(start@) == skeleton(play_cells(puzzle.spec_grid()@)),
            no_solution_within(*puzzle, (depth - 1) as nat),
        decreases maximum_swaps as u16 + 1 - depth,
    {
        grid.fill();
        proof {
            lemma_filled_unique(start.spec_size(), grid@, start@);
        }
        let ghost at_call = grid;
        match find_solution_from_grid(&mut grid, depth as u8) {
            Some(sol) => {
                proof {
                    lemma_solves_same(at_call, start, sol@);
                    assert(solves(start, sol@));
                    assert(sol@.len() > depth - 1);
                }
                return Some(sol);
            },
            None => {
                proof {
                    lemma_no_solution_from(*puzzle, at_call, depth as nat);
                }
            },
        }
        depth = depth + 1;
    }
    None
}

/// No filled start of the puzzle is solved by `max` swaps or fewer.
pub open spec fn no_solution_within(puzzle: Puzzle, max: nat) -> bool {
    forall|start: Grid<Cell>, sol: Seq<SwapRecord>|
        #![trigger solves(start, sol)]
        start.game_wf() && start.spec_size() == puzzle.spec_grid().spec_size() && skeleton(start@) == skeleton(
            play_cells(puzzle.spec_grid()@),
        ) && is_filled(start.spec_size(), start@) && solves(start, sol) ==> sol.len() > max
}

/// What holds of one filled start holds of every filled start of the puzzle.
proof fn lemma_no_solution_from(puzzle: Puzzle, start: Grid<Cell>, max: nat)
    requires
        start.game_wf(),
        start.spec_size() == puzzle.spec_grid().spec_size(),
        skeleton(start@) == skeleton(play_cells(puzzle.spec_grid()@)),
        is_filled(start.spec_size(), start@),
        solve_state(start.spec_size(), start@) != GridSolveState::Solved,
        max >= 1 ==> forall|s: Seq<SwapRecord>| #[trigger] solves(start, s) ==> s.len() < 1 || s.len() > max,
    ensures
        no_solution_within(puzzle, max),
{
    assert forall|other: Grid<Cell>, sol: Seq<SwapRecord>|
        #![trigger solves(other, sol)]
        other.game_wf() && other.spec_size() == puzzle.spec_grid().spec_size() && skeleton(other@) == skeleton(
            play_cells(puzzle.spec_grid()@),
        ) && is_filled(other.spec_size(), other@) && solves(other, sol) implies sol.len() > max by {
        lemma_filled_unique(start.spec_size(), other@, start@);
        lemma_solves_same(other, start, sol);
        if sol.len() == 0 {
            lemma_solves_empty(start, sol);
        }
    }
}

/// A solution of no swaps means the grid is already solved.
proof fn lemma_solves_empty(g: Grid<Cell>, sol: Seq<SwapRecord>)
    requires
        solves(g, sol),
        sol.len() == 0,
    ensures
        solve_state(g.spec_size(), g@) == GridSolveState::Solved,
{
    let states = choose|states: Seq<Grid<Cell>>|
        #[trigger] solution_path(states, sol) && states[0]@ == g@ && states[0].spec_size() == g.spec_size();
    assert(states.last() == states[0]);
}

/// A solution from one grid is a solution from any grid with the same cells.
pub(crate) proof fn lemma_solves_same(a: Grid<Cell>, b: Grid<Cell>, sol: Seq<SwapRecord>)
    requires
        solves(a, sol),
        a@ == b@,
        a.spec_size() == b.spec_size(),
    ensures
        solves(b, sol),
{
    let states = choose|states: Seq<Grid<Cell>>|
        #[trigger] solution_path(states, sol) && states[0]@ == a@ && states[0].spec_size() == a.spec_size();
    assert(solution_path(states, sol) && states[0]@ == b@ && states[0].spec_size() == b.spec_size());
}

/// The first swap of a solution, and the grid it leads to, from which the rest is a solution.
proof fn lemma_solves_first(g0: Grid<Cell>, sol: Seq<SwapRecord>) -> (g1: Grid<Cell>)
    requires
        solves(g0, sol),
        sol.len() >= 1,
    ensures
        step_ok(g0, sol[0], g1),
        solves(g1, sol.drop_first()),
{
    let states = choose|states: Seq<Grid<Cell>>|
        #[trigger] solution_path(states, sol) && states[0]@ == g0@ && states[0].spec_size() == g0.spec_size();
    let k0: int = 0;
    assert(step_ok(states[k0], sol[k0], states[k0 + 1]));
    lemma_step_same_start(states[0], g0, sol[0], states[1]);
    let rest = states.drop_first();
    let tail = sol.drop_first();
    assert forall|k: int| 0 <= k < tail.len() implies #[trigger] step_ok(rest[k], tail[k], rest[k + 1]) by {
        let j = k + 1;
        assert(step_ok(states[j], sol[j], states[j + 1]));
        assert(rest[k] == states[j] && rest[k + 1] == states[j + 1] && tail[k] == sol[j]);
    }
    assert(rest.last() == states.last());
    assert(solution_path(rest, tail));
    assert(rest[0] == states[1]);
    states[1]
}

/// Swapping `a` with `b` or `b` with `a` leaves the same cells.
proof fn lemma_swap_result_symmetric(g: Grid<Cell>, a: GridIndex, b: GridIndex)
    requires
        g.wf(),
        can_swap_at(g, a, b),
    ensures
        swap_result(g, a, b) == swap_result(g, b, a),
{
    lemma_index_of_lin(g.spec_size(), a);
    lemma_index_of_lin(g.spec_size(), b);
    assert(swap_result(g, a, b) =~= swap_result(g, b, a));
}

/// No solution of up to `swaps_left` swaps from `g0` starts with a swap that
/// was tried without success.
proof fn lemma_no_solution_through(
    g0: Grid<Cell>,
    swap: SwapRecord,
    g1: Grid<Cell>,
    sol: Seq<SwapRecord>,
    swaps_left: nat,
)
    requires
        g0.game_wf(),
        is_filled(g0.spec_size(), g0@),
        step_ok(g0, swap, g1),
        solve_state(g1.spec_size(), g1@) != GridSolveState::Solved,
        swaps_left > 1 ==> forall|s: Seq<SwapRecord>| #[trigger] solves(g1, s) ==> s.len() < 1 || s.len() > swaps_left - 1,
        solves(g0, sol),
        1 <= sol.len() <= swaps_left,
    ensures
        !same_move(sol[0], swap.a, swap.b),
{
    if same_move(sol[0], swap.a, swap.b) {
        let h1 = lemma_solves_first(g0, sol);
        if sol[0].a != swap.a {
            lemma_swap_result_symmetric(g0, swap.a, swap.b);
        }
        lemma_filled_unique(g0.spec_size(), h1@, g1@);
        if sol.len() == 1 {
            lemma_solves_empty(h1, sol.drop_first());
        } else {
            lemma_solves_same(h1, g1, sol.drop_first());
            assert(solves(g1, sol.drop_first()));
        }
    }
}

/// Tries each possible swap from a filled grid, then, if swaps are left, each
/// continuation; returns the first sequence found that solves the grid.
/// Whatever it returns, the grid keeps its structure.
/// Every swap allowed on `g0` is listed, in one order or the other.
#[verifier::opaque]
pub open spec fn lists_all(g0: Grid<Cell>, swaps: Seq<SwapRecord>) -> bool {
    forall|a: GridIndex, b: GridIndex|
        #[trigger] can_swap_at(g0, a, b) ==> exists|k: int| 0 <= k < swaps.len() && same_move(swaps[k], a, b)
}

/// No solution of one to `swaps_left` swaps from `g0` starts with one of the
/// first `i` listed swaps.
#[verifier::opaque]
pub open spec fn none_through(g0: Grid<Cell>, swaps: Seq<SwapRecord>, i: int, swaps_left: nat) -> bool {
    forall|k: int, sol: Seq<SwapRecord>|
        #![trigger solves(g0, sol), swaps[k]]
        0 <= k < i && solves(g0, sol) && 1 <= sol.len() <= swaps_left ==> !same_move(sol[0], swaps[k].a, swaps[k].b)
}

/// A swap that was tried without success joins those that start no solution.
proof fn lemma_none_through_extend(
    g0: Grid<Cell>,
    swaps: Seq<SwapRecord>,
    i: int,
    swaps_left: nat,
    g1: Grid<Cell>,
)
    requires
        0 <= i < swaps.len(),
        none_through(g0, swaps, i, swaps_left),
        g0.game_wf(),
        is_filled(g0.spec_size(), g0@),
        step_ok(g0, swaps[i], g1),
        solve_state(g1.spec_size(), g1@) != GridSolveState::Solved,
        swaps_left > 1 ==> forall|s: Seq<SwapRecord>| #[trigger] solves(g1, s) ==> s.len() < 1 || s.len() > swaps_left - 1,
    ensures
        none_through(g0, swaps, i + 1, swaps_left),
{
    reveal(none_through);
    assert forall|k: int, sol: Seq<SwapRecord>|
        #![trigger solves(g0, sol), swaps[k]]
        0 <= k < i + 1 && solves(g0, sol) && 1 <= sol.len() <= swaps_left implies !same_move(
        sol[0],
        swaps[k].a,
        swaps[k].b,
    ) by {
        if k == i {
            lemma_no_solution_through(g0, swaps[i], g1, sol, swaps_left);
        }
    }
}

/// When every listed swap starts no solution, there is none of one to `swaps_left` swaps.
proof fn lemma_none_through_all(g0: Grid<Cell>, swaps: Seq<SwapRecord>, swaps_left: nat)
    requires
        lists_all(g0, swaps),
        none_through(g0, swaps, swaps.len() as int, swaps_left),
    ensures
        forall|sol: Seq<SwapRecord>| #[trigger] solves(g0, sol) ==> sol.len() < 1 || sol.len() > swaps_left,
{
    reveal(lists_all);
    reveal(none_through);
    assert forall|sol: Seq<SwapRecord>| #[trigger] solves(g0, sol) implies sol.len() < 1 || sol.len() > swaps_left by {
        if 1 <= sol.len() <= swaps_left {
            let h1 = lemma_solves_first(g0, sol);
            assert(can_swap_at(g0, sol[0].a, sol[0].b));
            let k = choose|k: int| 0 <= k < swaps.len() && same_move(swaps[k], sol[0].a, sol[0].b);
            assert(same_move(sol[0], swaps[k].a, swaps[k].b));
        }
    }
}

/// A swap followed by a solution from the grid it leads to is a solution.
proof fn lemma_solves_prepend(g0: Grid<Cell>, swap: SwapRecord, g1: Grid<Cell>, rest: Seq<SwapRecord>)
    requires
        step_ok(g0, swap, g1),
        solves(g1, rest),
    ensures
        solves(g0, seq![swap] + rest),
{
    let ws = choose|states: Seq<Grid<Cell>>|
        #[trigger] solution_path(states, rest) && states[0]@ == g1@ && states[0].spec_size() == g1.spec_size();
    let states = seq![g0].add(ws.update(0, g1));
    let full = seq![swap].add(rest);
    assert(ws.update(0, g1)[0] == g1);
    assert forall|k: int| 0 <= k < full.len() implies #[trigger] step_ok(states[k], full[k], states[k + 1]) by {
        if k == 0 {
            assert(states[0] == g0);
            assert(states[1] == g1);
            assert(full[0] == swap);
        } else {
            assert(full[k] == rest[k - 1]);
            let j = k - 1;
            assert(step_ok(ws[j], rest[j], ws[j + 1]));
            assert(ws[j + 1] == ws[k]);
            assert(states[k + 1] == ws[k]);
            if k == 1 {
                assert(states[1] == g1);
                lemma_step_same_start(ws[0], g1, rest[0], ws[1]);
            } else {
                assert(states[k] == ws[k - 1]);
            }
        }
    }
    if ws.len() == 1 {
        assert(rest.len() == 0);
        assert(states.last() == g1);
        assert(solve_state(g1.spec_size(), g1@) == solve_state(ws.last().spec_size(), ws.last()@));
    } else {
        assert(states.last() == ws.last());
    }
    assert(solution_path(states, full));
    assert(states[0] == g0);
}

/// Tries each possible swap from a filled grid, then, if swaps are left, each
/// continuation; returns the first sequence found that solves the grid, or
/// `None` when no sequence of one to `swaps_left` swaps does.
/// When it returns `None`, the grid keeps its structure.
fn find_solution_from_grid(grid: &mut Grid<Cell>, swaps_left: u8) -> (r: Option<Vec<SwapRecord>>)
    requires
        old(grid).game_wf(),
        is_filled(old(grid).spec_size(), old(grid)@),
        swaps_left >= 1,
    ensures
        final(grid).game_wf(),
        final(grid).spec_size() == old(grid).spec_size(),
        r is None ==> skeleton(final(grid)@) == skeleton(old(grid)@),
        r is Some ==> 1 <= r.unwrap()@.len() <= swaps_left && solves(*old(grid), r.unwrap()@),
        r is None ==> forall|sol: Seq<SwapRecord>|
            #[trigger] solves(*old(grid), sol) ==> sol.len() < 1 || sol.len() > swaps_left,
    decreases swaps_left,
{
    let ghost g0 = *grid;
    let swaps = get_possible_swaps(grid);
    proof {
        reveal(lists_all);
        reveal(none_through);
    }
    let mut i: usize = 0;
    while i < swaps.len()
        invariant
            grid.game_wf(),
            grid.spec_size() == g0.spec_size(),
            skeleton(grid@) == skeleton(g0@),
            g0 == *old(grid),
            g0.game_wf(),
            is_filled(g0.spec_size(), g0@),
            swaps_left >= 1,
            i <= swaps@.len(),
            forall|k: int|
                0 <= k < swaps@.len() ==> can_swap_at(g0, (#[trigger] swaps@[k]).a, swaps@[k].b) && swaps@[k]
                    == swap_record_of(g0, swaps@[k].a, swaps@[k].b),
            lists_all(g0, swaps@),
            none_through(g0, swaps@, i as int, swaps_left as nat),
        decreases swaps@.len() - i,
    {
        let swap = swaps[i];
        assert(can_swap_at(g0, swap.a, swap.b));
        let ghost before = *grid;
        proof {
            lemma_turned_skeleton(g0, before, swap.a, swap.a_rotation, swap.b, swap.b_rotation);
        }
        swap_without_fill(grid, swap.a, swap.a_rotation, swap.b, swap.b_rotation);
        grid.fill();
        let ghost g1 = *grid;
        proof {
            assert(turned_and_swapped(g0, swap.a, swap.a_rotation, swap.b, swap.b_rotation) == swap_result(
                g0,
                swap.a,
                swap.b,
            ));
            assert(step_ok(g0, swap, g1));
        }
        if grid.is_solved() == GridSolveState::Solved {
            let sol = vec![swap];
            proof {
                let states = seq![g0, g1];
                assert(sol@ == seq![swap]);
                assert(solution_path(states, sol@));
                assert(states[0] == g0);
            }
            return Some(sol);
        }
        if swaps_left > 1 {
            match find_solution_from_grid(grid, swaps_left - 1) {
                Some(rest) => {
                    let mut sol = vec![swap];
                    let mut rest = rest;
                    let ghost full = seq![swap] + rest@;
                    proof {
                        lemma_solves_prepend(g0, swap, g1, rest@);
                    }
                    sol.append(&mut rest);
                    proof {
                        assert(sol@ =~= full);
                    }
                    return Some(sol);
                },
                None => {
                    proof {
                        lemma_none_through_extend(g0, swaps@, i as int, swaps_left as nat, g1);
                    }
                },
            }
        } else {
            proof {
                lemma_none_through_extend(g0, swaps@, i as int, swaps_left as nat, g1);
            }
        }
        let ghost after = *grid;
        proof {
            lemma_undo_turn(g0, g1, swap);
            lemma_turned_skeleton(g1, after, swap.a, swap.b_rotation.spec_inverse(), swap.b, swap.a_rotation.spec_inverse());
        }
        swap_without_fill(grid, swap.a, swap.b_rotation.inverse(), swap.b, swap.a_rotation.inverse());
        i = i + 1;
    }
    proof {
        lemma_none_through_all(g0, swaps@, swaps_left as nat);
    }
    None
}

/// A step from a grid holds from any grid with the same cells and size.
proof fn lemma_step_same_start(x: Grid<Cell>, y: Grid<Cell>, rec: SwapRecord, next: Grid<Cell>)
    requires
        x@ == y@,
        x.spec_size() == y.spec_size(),
        step_ok(x, rec, next),
    ensures
        step_ok(y, rec, next),
{
    assert(swap_result(x, rec.a, rec.b) == swap_result(y, rec.a, rec.b));
}

/// Turning the swapped cells back by the inverse rotations, crossed, gives back
/// the structure of the grid before the swap.
proof fn lemma_undo_turn(g0: Grid<Cell>, g1: Grid<Cell>, swap: SwapRecord)
    requires
        g0.game_wf(),
        g1.game_wf(),
        step_ok(g0, swap, g1),
    ensures
        g1.at(swap.a) is Some,
        g1.at(swap.b) is Some,
        skeleton(turned_and_swapped(g1, swap.a, swap.b_rotation.spec_inverse(), swap.b, swap.a_rotation.spec_inverse()))
            == skeleton(g0@),
{
    let size = g0.spec_size();
    let a = swap.a;
    let b = swap.b;
    lemma_index_of_lin(size, a);
    lemma_index_of_lin(size, b);
    let la = lin(size, a);
    let lb = lin(size, b);
    let ca = g0.at(a).unwrap();
    let cb = g0.at(b).unwrap();
    let ra = swap.a_rotation;
    let rb = swap.b_rotation;
    let sr = swap_result(g0, a, b);
    lemma_skeleton_cells(g0@);
    lemma_skeleton_cells(g1@);
    lemma_skeleton_cells(sr);
    assert(skeleton(g1@)[la] == skeleton(sr)[la]);
    assert(skeleton(g1@)[lb] == skeleton(sr)[lb]);
    let xa = g1@[la].unwrap();
    let xb = g1@[lb].unwrap();
    lemma_cell_rotate_wf(ca, ra);
    lemma_cell_rotate_wf(cb, rb);
    lemma_cell_rotate_wf(xa, rb.spec_inverse());
    lemma_cell_rotate_wf(xb, ra.spec_inverse());
    lemma_cell_rotate_inverse(ca.cleared(), ra);
    lemma_cell_rotate_inverse(cb.cleared(), rb);
    let t = turned_and_swapped(g1, a, rb.spec_inverse(), b, ra.spec_inverse());
    lemma_skeleton_cells(t);
    assert forall|j: int| 0 <= j < t.len() implies skeleton(t)[j] == skeleton(g0@)[j] by {
        if j != la && j != lb {
            assert(skeleton(g1@)[j] == skeleton(sr)[j]);
        }
    }
    assert(skeleton(t) =~= skeleton(g0@));
}

} // verus!
