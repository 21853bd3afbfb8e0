//! The grid in play: how colors spread from sources, whether it is solved,
//! and swapping cells with their turns.

use vstd::prelude::*;

use crate::cell::{CellData, lemma_cell_equal, lemma_cell_rotate_inverse, lemma_cell_rotate_wf, Cell, CellLayer, PuzzleCell, SwapRecord};
use crate::color::{color_bit, Color, ColorSet};
use crate::direction::{Direction, Rotation};
use crate::grid::{
    get_index_from_linear_index, get_linear_index, index_of, lemma_lin_bounds, lemma_lin_index_of,
    lemma_index_of_lin, lin, Grid, GridIndex, GridSize,
};

verus! {

/// How a grid stands: solved, or the first rule it breaks.
#[derive(Debug, Clone, Copy, PartialEq, Eq, Structural)]
pub enum GridSolveState {
    Solved,
    NotAllConnected,
    NotAllFilled,
    DoubleFilled,
    DuplicateColorSection,
}

/// One layer of one position of the grid.
#[derive(Debug, Clone, Copy, PartialEq, Eq, Structural, Hash)]
pub struct GameGridIndex {
    pub grid_index: GridIndex,
    pub layer_index: usize,
}

/// The cells with every fill emptied: what stays fixed while colors spread.
pub open spec fn skeleton(cells: Seq<Option<Cell>>) -> Seq<Option<Cell>> {
    cells.map_values(|c: Option<Cell>| match c {
        Some(x) => Some(x.cleared()),
        None => None,
    })
}

/// A layer at a row-major position.
pub open spec fn layer_at(cells: Seq<Option<Cell>>, li: int, l: int) -> Option<CellLayer> {
    if 0 <= li < cells.len() {
        match cells[li] {
            Some(c) => c.layer(l),
            None => None,
        }
    } else {
        None
    }
}

/// The row-major position next to `li` in a direction, if it is inside the grid.
pub open spec fn nbr(size: GridSize, li: int, d: Direction) -> Option<int> {
    match index_of(size, li).spec_moved_in(d) {
        Some(m) => if size.spec_contains(m) {
            Some(lin(size, m))
        } else {
            None
        },
        None => None,
    }
}

/// Where a layer leads in a direction: the layer of the neighbor that opens back
/// toward it, when the layer opens in that direction and such a layer exists.
pub open spec fn step(size: GridSize, cells: Seq<Option<Cell>>, li: int, l: int, d: Direction) -> Option<(int, int)> {
    match layer_at(cells, li, l) {
        Some(ly) => if ly.connections.at(d) {
            match nbr(size, li, d) {
                Some(n) => if 0 <= n < cells.len() {
                    match cells[n] {
                        Some(c) => match c.layer_for_dir(d.spec_inverse()) {
                            Some(nl) => Some((n, nl)),
                            None => None,
                        },
                        None => None,
                    }
                } else {
                    None
                },
                None => None,
            }
        } else {
            None
        },
        None => None,
    }
}

/// Some direction leads from layer `a` to layer `b`.
pub open spec fn linked(size: GridSize, cells: Seq<Option<Cell>>, a: (int, int), b: (int, int)) -> bool {
    step(size, cells, a.0, a.1, Direction::E) == Some(b) || step(size, cells, a.0, a.1, Direction::N) == Some(b)
        || step(size, cells, a.0, a.1, Direction::W) == Some(b) || step(size, cells, a.0, a.1, Direction::S) == Some(
        b,
    )
}

/// A non-empty sequence of layers, each linked to the next.
pub open spec fn is_path(size: GridSize, cells: Seq<Option<Cell>>, path: Seq<(int, int)>) -> bool {
    &&& path.len() > 0
    &&& forall|i: int| 0 <= i < path.len() - 1 ==> linked(size, cells, #[trigger] path[i], path[i + 1])
}

/// `k` can be reached from a seed by following connections.
pub open spec fn reachable(size: GridSize, cells: Seq<Option<Cell>>, seeds: Set<(int, int)>, k: (int, int)) -> bool {
    exists|path: Seq<(int, int)>|
        #[trigger] is_path(size, cells, path) && seeds.contains(path[0]) && path.last() == k
}

/// A path extended by one step is a path.
pub proof fn lemma_path_step(size: GridSize, cells: Seq<Option<Cell>>, path: Seq<(int, int)>, d: Direction)
    requires
        is_path(size, cells, path),
        step(size, cells, path.last().0, path.last().1, d) is Some,
    ensures
        is_path(size, cells, path.push(step(size, cells, path.last().0, path.last().1, d).unwrap())),
        path.push(step(size, cells, path.last().0, path.last().1, d).unwrap())[0] == path[0],
{
    let k = step(size, cells, path.last().0, path.last().1, d).unwrap();
    let q = path.push(k);
    assert forall|i: int| 0 <= i < q.len() - 1 implies linked(size, cells, #[trigger] q[i], q[i + 1]) by {
        if i < path.len() - 1 {
            assert(q[i] == path[i] && q[i + 1] == path[i + 1]);
        } else {
            assert(q[i] == path.last());
            assert(q[i + 1] == k);
            match d {
                Direction::E => {},
                Direction::N => {},
                Direction::W => {},
                Direction::S => {},
            }
        }
    }
}

/// A seed is reachable.
pub proof fn lemma_seed_reachable(size: GridSize, cells: Seq<Option<Cell>>, seeds: Set<(int, int)>, k: (int, int))
    requires
        seeds.contains(k),
    ensures
        reachable(size, cells, seeds, k),
{
    let path = seq![k];
    assert(is_path(size, cells, path));
}

/// One step from a reachable layer lands on a reachable layer.
pub proof fn lemma_reachable_step(
    size: GridSize,
    cells: Seq<Option<Cell>>,
    seeds: Set<(int, int)>,
    k: (int, int),
    d: Direction,
)
    requires
        reachable(size, cells, seeds, k),
        step(size, cells, k.0, k.1, d) is Some,
    ensures
        reachable(size, cells, seeds, step(size, cells, k.0, k.1, d).unwrap()),
{
    let path = choose|path: Seq<(int, int)>| #[trigger] is_path(size, cells, path) && seeds.contains(path[0]) && path.last() == k;
    lemma_path_step(size, cells, path, d);
    let q = path.push(step(size, cells, k.0, k.1, d).unwrap());
    assert(q.last() == step(size, cells, k.0, k.1, d).unwrap());
}

/// The layers of the sources of a color.
pub open spec fn sources_of(cells: Seq<Option<Cell>>, c: Color) -> Set<(int, int)> {
    Set::new(|k: (int, int)| k.1 == 0 && is_source(cells, k.0, c))
}

/// The cell at `li` is a source of color `c`.
pub open spec fn is_source(cells: Seq<Option<Cell>>, li: int, c: Color) -> bool {
    0 <= li < cells.len() && cells[li] is Some && cells[li].unwrap().spec_source() == Some(c)
}

/// The color `c` reaches the layer `(li, l)`: it is connected to a source of `c`.
pub open spec fn colored(size: GridSize, cells: Seq<Option<Cell>>, c: Color, li: int, l: int) -> bool {
    reachable(size, skeleton(cells), sources_of(skeleton(cells), c), (li, l))
}

/// The fill of a layer at a row-major position.
pub open spec fn fill_at(cells: Seq<Option<Cell>>, li: int, l: int) -> ColorSet {
    layer_at(cells, li, l).unwrap().fill
}

/// Every fill holds exactly the colors whose sources connect to its layer.
pub open spec fn is_filled(size: GridSize, cells: Seq<Option<Cell>>) -> bool {
    forall|li: int, l: int, c: Color|
        #![trigger fill_at(cells, li, l).has(c)]
        layer_at(cells, li, l).is_some() ==> (fill_at(cells, li, l).has(c) <==> colored(size, cells, c, li, l))
}

/// Every cell of the sequence is well formed.
pub open spec fn cells_wf(cells: Seq<Option<Cell>>) -> bool {
    forall|li: int| 0 <= li < cells.len() && (#[trigger] cells[li]) is Some ==> cells[li].unwrap().wf()
}

/// If the layer `(li, l)` opens in direction `d`, it meets a neighbor layer that opens back.
pub open spec fn conn_ok(size: GridSize, cells: Seq<Option<Cell>>, li: int, l: int, d: Direction) -> bool {
    layer_at(cells, li, l) is Some && layer_at(cells, li, l).unwrap().connections.at(d) ==> step(
        size,
        skeleton(cells),
        li,
        l,
        d,
    ) is Some
}

/// Every connection of every layer meets a neighbor layer that opens back.
pub open spec fn all_connected(size: GridSize, cells: Seq<Option<Cell>>) -> bool {
    forall|li: int, l: int, d: Direction| #[trigger] conn_ok(size, cells, li, l, d)
}

/// If the layer `(li, l)` exists, it holds some color.
pub open spec fn filled_ok(cells: Seq<Option<Cell>>, li: int, l: int) -> bool {
    layer_at(cells, li, l) is Some ==> !fill_at(cells, li, l).spec_is_empty()
}

/// Every layer holds at least one color.
pub open spec fn all_filled(cells: Seq<Option<Cell>>) -> bool {
    forall|li: int, l: int| #[trigger] filled_ok(cells, li, l)
}

/// The layer `(li, l)` exists and holds two colors or more.
pub open spec fn double_at(cells: Seq<Option<Cell>>, li: int, l: int) -> bool {
    layer_at(cells, li, l) is Some && fill_at(cells, li, l).spec_len() >= 2
}

/// Some layer holds two colors or more.
pub open spec fn double_filled(cells: Seq<Option<Cell>>) -> bool {
    exists|li: int, l: int| #[trigger] double_at(cells, li, l)
}

/// `f` is the first source of color `c` in row-major order.
pub open spec fn is_first_source(cells: Seq<Option<Cell>>, f: int, c: Color) -> bool {
    is_source(cells, f, c) && forall|j: int| 0 <= j < f ==> !#[trigger] is_source(cells, j, c)
}

/// Some source of color `c` cannot be reached from the first source of `c`.
pub open spec fn color_split(size: GridSize, cells: Seq<Option<Cell>>, c: Color) -> bool {
    exists|f: int, li: int|
        #![trigger is_first_source(cells, f, c), is_source(cells, li, c)]
        is_first_source(cells, f, c) && is_source(cells, li, c) && !reachable(
            size,
            skeleton(cells),
            set![(f, 0)],
            (li, 0),
        )
}

/// Some color has sources in two parts of the grid that do not connect.
pub open spec fn duplicate_section(size: GridSize, cells: Seq<Option<Cell>>) -> bool {
    exists|c: Color| #[trigger] color_split(size, cells, c)
}

/// How a grid stands, checking connections, then fills, then double fills,
/// then split colors.
pub open spec fn solve_state(size: GridSize, cells: Seq<Option<Cell>>) -> GridSolveState {
    if !all_connected(size, cells) {
        GridSolveState::NotAllConnected
    } else if !all_filled(cells) {
        GridSolveState::NotAllFilled
    } else if double_filled(cells) {
        GridSolveState::DoubleFilled
    } else if duplicate_section(size, cells) {
        GridSolveState::DuplicateColorSection
    } else {
        GridSolveState::Solved
    }
}

/// Whether a pair of layers has been visited, by position and layer.
pub open spec fn vis(v: Seq<(bool, bool)>, li: int, l: int) -> bool {
    if l == 0 {
        v[li].0
    } else {
        v[li].1
    }
}

/// The number of layers not yet visited.
pub open spec fn count_unvisited(v: Seq<(bool, bool)>) -> nat
    decreases v.len(),
{
    if v.len() == 0 {
        0
    } else {
        count_unvisited(v.drop_last()) + (if v.last().0 { 0nat } else { 1nat }) + (if v.last().1 {
            0nat
        } else {
            1nat
        })
    }
}

pub proof fn lemma_count_unvisited_mark(v: Seq<(bool, bool)>, li: int, l: int)
    requires
        0 <= li < v.len(),
        0 <= l < 2,
        !vis(v, li, l),
    ensures
        count_unvisited(mark(v, li, l)) + 1 == count_unvisited(v),
    decreases v.len(),
{
    if li == v.len() - 1 {
        assert(mark(v, li, l).drop_last() == v.drop_last());
    } else {
        assert(mark(v, li, l).drop_last() == mark(v.drop_last(), li, l));
        lemma_count_unvisited_mark(v.drop_last(), li, l);
    }
}

/// The visited marks with one more layer marked.
pub open spec fn mark(v: Seq<(bool, bool)>, li: int, l: int) -> Seq<(bool, bool)> {
    if l == 0 {
        v.update(li, (true, v[li].1))
    } else {
        v.update(li, (v[li].0, true))
    }
}

/// The seeds as a set of pairs.
pub open spec fn seed_set(seeds: Seq<(usize, usize)>) -> Set<(int, int)> {
    Set::new(|k: (int, int)| exists|i: int| 0 <= i < seeds.len() && #[trigger] seeds[i].0 as int == k.0 && seeds[i].1 as int == k.1)
}

/// Every step from `(li, l)` lands on a visited layer.
pub open spec fn closed(size: GridSize, sk: Seq<Option<Cell>>, v: Seq<(bool, bool)>, li: int, l: int) -> bool {
    forall|d: Direction| #[trigger] step(size, sk, li, l, d) is Some ==> vis(
        v,
        step(size, sk, li, l, d).unwrap().0,
        step(size, sk, li, l, d).unwrap().1,
    )
}

pub proof fn lemma_skeleton_cells(cells: Seq<Option<Cell>>)
    ensures
        skeleton(cells).len() == cells.len(),
        forall|li: int| 0 <= li < cells.len() ==> (#[trigger] skeleton(cells)[li]) == match cells[li] {
            Some(x) => Some(x.cleared()),
            None => None,
        },
        forall|li: int, l: int|
            #![trigger layer_at(skeleton(cells), li, l)]
            layer_at(skeleton(cells), li, l).is_some() == layer_at(cells, li, l).is_some() && (layer_at(
                cells,
                li,
                l,
            ).is_some() ==> layer_at(skeleton(cells), li, l).unwrap().connections == layer_at(
                cells,
                li,
                l,
            ).unwrap().connections),
        forall|li: int, d: Direction|
            #![trigger skeleton(cells)[li].unwrap().layer_for_dir(d)]
            0 <= li < cells.len() && cells[li] is Some ==> skeleton(cells)[li].unwrap().layer_for_dir(d)
                == cells[li].unwrap().layer_for_dir(d),
        forall|li: int, c: Color| #[trigger] is_source(skeleton(cells), li, c) == is_source(cells, li, c),
{
}

/// Steps land inside the grid, on a layer that exists.
pub proof fn lemma_step_valid(size: GridSize, cells: Seq<Option<Cell>>, li: int, l: int, d: Direction)
    requires
        cells.len() == size.area(),
        step(size, cells, li, l, d) is Some,
    ensures
        0 <= step(size, cells, li, l, d).unwrap().0 < cells.len(),
        0 <= step(size, cells, li, l, d).unwrap().1 < 2,
        layer_at(cells, step(size, cells, li, l, d).unwrap().0, step(size, cells, li, l, d).unwrap().1) is Some,
{
}

/// What holds of the visited marks and the stack while layers are explored:
/// each visited layer exists, is reachable, and is on the stack, fully explored,
/// or the layer `cur` being explored; each layer on the stack is visited.
#[verifier::opaque]
pub open spec fn bfs_inv(
    cells: Seq<Option<Cell>>,
    size: GridSize,
    sk: Seq<Option<Cell>>,
    seedset: Set<(int, int)>,
    v: Seq<(bool, bool)>,
    stack: Seq<(usize, usize)>,
    cur: (int, int),
) -> bool {
    &&& forall|a: int, b: int|
        #![trigger vis(v, a, b)]
        0 <= a < v.len() && 0 <= b < 2 && vis(v, a, b) ==> layer_at(cells, a, b) is Some && reachable(
            size,
            sk,
            seedset,
            (a, b),
        ) && (stack.contains((a as usize, b as usize)) || closed(size, sk, v, a, b) || (a, b) == cur)
    &&& forall|k: int|
        0 <= k < stack.len() ==> (#[trigger] stack[k]).0 < v.len() && stack[k].1 < 2 && vis(
            v,
            stack[k].0 as int,
            stack[k].1 as int,
        )
}

proof fn lemma_bfs_push(
    cells: Seq<Option<Cell>>,
    size: GridSize,
    sk: Seq<Option<Cell>>,
    seedset: Set<(int, int)>,
    v: Seq<(bool, bool)>,
    stack: Seq<(usize, usize)>,
    cur: (int, int),
    li: int,
    l: int,
)
    requires
        bfs_inv(cells, size, sk, seedset, v, stack, cur),
        sk.len() == size.area(),
        v.len() == sk.len(),
        0 <= li < v.len(),
        0 <= l < 2,
        li <= usize::MAX,
        !vis(v, li, l),
        layer_at(cells, li, l) is Some,
        reachable(size, sk, seedset, (li, l)),
    ensures
        bfs_inv(cells, size, sk, seedset, mark(v, li, l), stack.push((li as usize, l as usize)), cur),
        forall|a: int, b: int|
            #![trigger vis(mark(v, li, l), a, b)]
            0 <= a < v.len() && vis(v, a, b) ==> vis(mark(v, li, l), a, b),
{
    reveal(bfs_inv);
    let nv = mark(v, li, l);
    let ns = stack.push((li as usize, l as usize));
    assert(ns[ns.len() - 1] == (li as usize, l as usize));
    assert forall|a: int, b: int|
        #![trigger vis(nv, a, b)]
        0 <= a < nv.len() && 0 <= b < 2 && vis(nv, a, b) implies layer_at(cells, a, b) is Some && reachable(
            size,
            sk,
            seedset,
            (a, b),
        ) && (ns.contains((a as usize, b as usize)) || closed(size, sk, nv, a, b) || (a, b) == cur) by {
        if a == li && b == l {
        } else {
            assert(vis(v, a, b));
            if stack.contains((a as usize, b as usize)) {
                let k = choose|k: int| 0 <= k < stack.len() && stack[k] == (a as usize, b as usize);
                assert(ns[k] == (a as usize, b as usize));
            } else if closed(size, sk, v, a, b) {
                assert forall|dd: Direction| #[trigger] step(size, sk, a, b, dd) is Some implies vis(
                    nv,
                    step(size, sk, a, b, dd).unwrap().0,
                    step(size, sk, a, b, dd).unwrap().1,
                ) by {
                    assert(vis(v, step(size, sk, a, b, dd).unwrap().0, step(size, sk, a, b, dd).unwrap().1));
                    lemma_step_valid(size, sk, a, b, dd);
                }
            }
        }
    }
    assert forall|k: int| 0 <= k < ns.len() implies (#[trigger] ns[k]).0 < nv.len() && ns[k].1 < 2 && vis(
        nv,
        ns[k].0 as int,
        ns[k].1 as int,
    ) by {
        if k < stack.len() {
            assert(ns[k] == stack[k]);
            assert(vis(v, stack[k].0 as int, stack[k].1 as int));
        }
    }
}

proof fn lemma_bfs_pop(
    cells: Seq<Option<Cell>>,
    size: GridSize,
    sk: Seq<Option<Cell>>,
    seedset: Set<(int, int)>,
    v: Seq<(bool, bool)>,
    pre: Seq<(usize, usize)>,
    popped: Seq<(usize, usize)>,
)
    requires
        bfs_inv(cells, size, sk, seedset, v, pre, (-1, -1)),
        v.len() <= usize::MAX,
        pre.len() > 0,
        pre == popped.push(pre.last()),
    ensures
        bfs_inv(cells, size, sk, seedset, v, popped, (pre.last().0 as int, pre.last().1 as int)),
        pre.last().0 < v.len(),
        pre.last().1 < 2,
        vis(v, pre.last().0 as int, pre.last().1 as int),
        layer_at(cells, pre.last().0 as int, pre.last().1 as int) is Some,
        reachable(size, sk, seedset, (pre.last().0 as int, pre.last().1 as int)),
{
    reveal(bfs_inv);
    let k = pre.last();
    assert(pre[pre.len() - 1] == k);
    assert forall|a: int, b: int|
        #![trigger vis(v, a, b)]
        0 <= a < v.len() && 0 <= b < 2 && vis(v, a, b) implies layer_at(cells, a, b) is Some && reachable(
            size,
            sk,
            seedset,
            (a, b),
        ) && (popped.contains((a as usize, b as usize)) || closed(size, sk, v, a, b) || (a, b) == (
            k.0 as int,
            k.1 as int,
        )) by {
        if pre.contains((a as usize, b as usize)) && !((a, b) == (k.0 as int, k.1 as int)) {
            let j = choose|j: int| 0 <= j < pre.len() && pre[j] == (a as usize, b as usize);
            assert(j < popped.len());
            assert(popped[j] == (a as usize, b as usize));
        }
    }
    assert forall|j: int| 0 <= j < popped.len() implies (#[trigger] popped[j]).0 < v.len() && popped[j].1 < 2
        && vis(v, popped[j].0 as int, popped[j].1 as int) by {
        assert(popped[j] == pre[j]);
    }
}

proof fn lemma_bfs_close(
    cells: Seq<Option<Cell>>,
    size: GridSize,
    sk: Seq<Option<Cell>>,
    seedset: Set<(int, int)>,
    v: Seq<(bool, bool)>,
    stack: Seq<(usize, usize)>,
    cur: (int, int),
)
    requires
        bfs_inv(cells, size, sk, seedset, v, stack, cur),
        closed(size, sk, v, cur.0, cur.1),
    ensures
        bfs_inv(cells, size, sk, seedset, v, stack, (-1, -1)),
{
    reveal(bfs_inv);
}

/// Two distinct positions that both hold cells which may trade places.
pub open spec fn can_swap_at(g: Grid<Cell>, a: GridIndex, b: GridIndex) -> bool {
    &&& a != b
    &&& g.at(a) is Some
    &&& g.at(b) is Some
    &&& Cell::spec_can_swap(g.at(a).unwrap(), g.at(b).unwrap())
}

/// The cells after a swap of `a` and `b`: each cell is first turned by the
/// rotation its own fill calls for, then the two trade places.
pub open spec fn swap_result(g: Grid<Cell>, a: GridIndex, b: GridIndex) -> Seq<Option<Cell>> {
    let ca = g.at(a).unwrap();
    let cb = g.at(b).unwrap();
    g@.update(lin(g.spec_size(), a), Some(cb.spec_rotate(cb.spec_rotation_for_fill()))).update(
        lin(g.spec_size(), b),
        Some(ca.spec_rotate(ca.spec_rotation_for_fill())),
    )
}

/// The record a swap of `a` and `b` leaves.
pub open spec fn swap_record_of(g: Grid<Cell>, a: GridIndex, b: GridIndex) -> SwapRecord {
    SwapRecord {
        a,
        b,
        a_rotation: g.at(a).unwrap().spec_rotation_for_fill(),
        b_rotation: g.at(b).unwrap().spec_rotation_for_fill(),
    }
}

/// A sequence with the cell at `li` turned by a rotation.
pub open spec fn rotated_at(cells: Seq<Option<Cell>>, li: int, r: Rotation) -> Seq<Option<Cell>> {
    cells.update(li, Some(cells[li].unwrap().spec_rotate(r)))
}

/// The cells after undoing a swap: the two cells trade places back, and each is
/// turned by the inverse of the rotation it received.
pub open spec fn undo_result(g: Grid<Cell>, rec: SwapRecord) -> Seq<Option<Cell>> {
    let la = lin(g.spec_size(), rec.a);
    let lb = lin(g.spec_size(), rec.b);
    let swapped = g@.update(la, g.at(rec.b)).update(lb, g.at(rec.a));
    rotated_at(rotated_at(swapped, la, rec.a_rotation.spec_inverse()), lb, rec.b_rotation.spec_inverse())
}

/// The play form of static cells.
pub open spec fn play_cells(cells: Seq<Option<PuzzleCell>>) -> Seq<Option<Cell>> {
    cells.map_values(|c: Option<PuzzleCell>| match c {
        Some(p) => Some(Cell::spec_new(p)),
        None => None,
    })
}

/// Two filled grids of the same structure hold the same cells.
pub proof fn lemma_filled_unique(size: GridSize, x: Seq<Option<Cell>>, y: Seq<Option<Cell>>)
    requires
        x.len() == y.len(),
        cells_wf(x),
        cells_wf(y),
        skeleton(x) == skeleton(y),
        is_filled(size, x),
        is_filled(size, y),
    ensures
        x == y,
{
    lemma_skeleton_cells(x);
    lemma_skeleton_cells(y);
    assert forall|li: int| 0 <= li < x.len() implies x[li] == y[li] by {
        assert(skeleton(x)[li] == skeleton(y)[li]);
        if x[li] is Some {
            let a = x[li].unwrap();
            let b = y[li].unwrap();
            assert forall|l: int, c: Color|
                a.layer(l) is Some implies (#[trigger] a.layer(l).unwrap().fill.has(c) <==> b.layer(l).unwrap().fill.has(c)) by {
                assert(layer_at(x, li, l) is Some);
                assert(layer_at(skeleton(x), li, l) is Some);
                assert(layer_at(y, li, l) is Some);
                assert(fill_at(x, li, l).has(c) <==> colored(size, x, c, li, l));
                assert(fill_at(y, li, l).has(c) <==> colored(size, y, c, li, l));
            }
            lemma_cell_equal(a, b);
        }
    }
    assert(x =~= y);
}

/// Filling depends on the structure alone: filling a grid that is already
/// filled, or any grid of the same structure, gives the same cells.
pub proof fn lemma_fill_idempotent(size: GridSize, before: Seq<Option<Cell>>, after: Seq<Option<Cell>>)
    requires
        before.len() == after.len(),
        cells_wf(before),
        cells_wf(after),
        is_filled(size, before),
        skeleton(after) == skeleton(before),
        is_filled(size, after),
    ensures
        after == before,
{
    lemma_filled_unique(size, after, before);
}

/// Re-filling a grid leaves its solved state unchanged.
pub proof fn lemma_solve_state_stable(size: GridSize, before: Seq<Option<Cell>>, after: Seq<Option<Cell>>)
    requires
        before.len() == after.len(),
        cells_wf(before),
        cells_wf(after),
        is_filled(size, before),
        skeleton(after) == skeleton(before),
        is_filled(size, after),
    ensures
        solve_state(size, after) == solve_state(size, before),
{
    lemma_filled_unique(size, after, before);
}

/// Color `c` is in the fill of `(li, l)`, or an entry still to be explored brings it there.
pub open spec fn pending(
    cells: Seq<Option<Cell>>,
    queue: Seq<(usize, usize, ColorSet)>,
    head: int,
    li: int,
    l: int,
    c: Color,
) -> bool {
    fill_at(cells, li, l).has(c) || exists|q: int|
        head <= q < queue.len() && queue[q].0 as int == li && queue[q].1 as int == l && #[trigger] queue[q].2.has(c)
}

/// What holds while fills spread: each color a fill or an entry holds comes
/// from a source that connects to its layer; each color of a fill is, or will
/// be, in the fill of every layer the layer leads to, except for the layer
/// `cur` being worked on; and each of the first `seeded` positions that is a
/// source holds, or will hold, its own color.
#[verifier::opaque]
pub open spec fn fill_inv(
    size: GridSize,
    sk: Seq<Option<Cell>>,
    cells: Seq<Option<Cell>>,
    queue: Seq<(usize, usize, ColorSet)>,
    head: int,
    cur: (int, int),
    seeded: int,
) -> bool {
    &&& forall|li: int, l: int, c: Color|
        #![trigger fill_at(cells, li, l).has(c)]
        layer_at(cells, li, l) is Some && fill_at(cells, li, l).has(c) ==> reachable(size, sk, sources_of(sk, c), (li, l))
    &&& forall|q: int|
        0 <= q < queue.len() ==> (#[trigger] queue[q]).0 < cells.len() && queue[q].1 < 2 && layer_at(
            cells,
            queue[q].0 as int,
            queue[q].1 as int,
        ) is Some && queue[q].2.wf()
    &&& forall|q: int, c: Color|
        #![trigger queue[q].2.has(c)]
        0 <= q < queue.len() && queue[q].2.has(c) ==> reachable(
            size,
            sk,
            sources_of(sk, c),
            (queue[q].0 as int, queue[q].1 as int),
        )
    &&& forall|li: int, l: int, c: Color, d: Direction|
        #![trigger fill_at(cells, li, l).has(c), step(size, sk, li, l, d)]
        layer_at(cells, li, l) is Some && fill_at(cells, li, l).has(c) && step(size, sk, li, l, d) is Some && (li, l)
            != cur ==> pending(
            cells,
            queue,
            head,
            step(size, sk, li, l, d).unwrap().0,
            step(size, sk, li, l, d).unwrap().1,
            c,
        )
    &&& forall|li: int, c: Color|
        #![trigger is_source(sk, li, c)]
        0 <= li < seeded && is_source(sk, li, c) ==> pending(cells, queue, head, li, 0, c)
}

/// The number of colors the fills could still gain.
pub open spec fn missing_bits(cells: Seq<Option<Cell>>) -> nat
    decreases cells.len(),
{
    if cells.len() == 0 {
        0
    } else {
        missing_bits(cells.drop_last()) + match cells.last() {
            Some(c) => cell_missing(c),
            None => 0,
        }
    }
}

/// The number of colors the layers of a cell could still gain.
pub open spec fn cell_missing(c: Cell) -> nat {
    layer_missing(c, 0) + layer_missing(c, 1)
}

pub open spec fn layer_missing(c: Cell, l: int) -> nat {
    match c.layer(l) {
        Some(ly) => (6 - ly.fill.spec_len()) as nat,
        None => 0,
    }
}

proof fn lemma_missing_bits_update(cells: Seq<Option<Cell>>, i: int, c2: Cell)
    requires
        0 <= i < cells.len(),
        cells[i] is Some,
        cell_missing(c2) < cell_missing(cells[i].unwrap()),
    ensures
        missing_bits(cells.update(i, Some(c2))) < missing_bits(cells),
    decreases cells.len(),
{
    let u = cells.update(i, Some(c2));
    if i == cells.len() - 1 {
        assert(u.drop_last() == cells.drop_last());
    } else {
        assert(u.drop_last() == cells.drop_last().update(i, Some(c2)));
        lemma_missing_bits_update(cells.drop_last(), i, c2);
    }
}

/// Pushing an entry that brings colors reachable at its layer keeps the invariant,
/// keeps every pending color pending, and makes the entry's colors pending.
proof fn lemma_fill_push(
    size: GridSize,
    sk: Seq<Option<Cell>>,
    cells: Seq<Option<Cell>>,
    queue: Seq<(usize, usize, ColorSet)>,
    head: int,
    cur: (int, int),
    seeded: int,
    e: (usize, usize, ColorSet),
)
    requires
        fill_inv(size, sk, cells, queue, head, cur, seeded),
        0 <= head <= queue.len(),
        e.0 < cells.len(),
        e.1 < 2,
        layer_at(cells, e.0 as int, e.1 as int) is Some,
        e.2.wf(),
        forall|c: Color| #[trigger] e.2.has(c) ==> reachable(size, sk, sources_of(sk, c), (e.0 as int, e.1 as int)),
    ensures
        fill_inv(size, sk, cells, queue.push(e), head, cur, seeded),
        forall|c: Color| #[trigger] e.2.has(c) ==> pending(cells, queue.push(e), head, e.0 as int, e.1 as int, c),
{
    reveal(fill_inv);
    let nq = queue.push(e);
    lemma_pending_push_keeps(cells, queue, head, e);
    assert(nq[queue.len() as int] == e);
    assert forall|q: int| 0 <= q < nq.len() implies (#[trigger] nq[q]).0 < cells.len() && nq[q].1 < 2 && layer_at(
        cells,
        nq[q].0 as int,
        nq[q].1 as int,
    ) is Some && nq[q].2.wf() by {
        if q < queue.len() {
            assert(nq[q] == queue[q]);
        }
    }
    assert forall|q: int, c: Color|
        #![trigger nq[q].2.has(c)]
        0 <= q < nq.len() && nq[q].2.has(c) implies reachable(size, sk, sources_of(sk, c), (nq[q].0 as int, nq[q].1 as int)) by {
        if q < queue.len() {
            assert(nq[q] == queue[q]);
        }
    }
    assert forall|c: Color| #[trigger] e.2.has(c) implies pending(cells, nq, head, e.0 as int, e.1 as int, c) by {
        assert(nq[queue.len() as int].2.has(c));
    }
}

/// Pushing an entry keeps every pending color pending.
proof fn lemma_pending_push_keeps(
    cells: Seq<Option<Cell>>,
    queue: Seq<(usize, usize, ColorSet)>,
    head: int,
    e: (usize, usize, ColorSet),
)
    requires
        0 <= head,
    ensures
        forall|li: int, l: int, c: Color|
            #[trigger] pending(cells, queue, head, li, l, c) ==> pending(cells, queue.push(e), head, li, l, c),
{
    assert forall|li: int, l: int, c: Color|
        #[trigger] pending(cells, queue, head, li, l, c) implies pending(cells, queue.push(e), head, li, l, c) by {
        if !fill_at(cells, li, l).has(c) {
            let q = choose|q: int|
                head <= q < queue.len() && queue[q].0 as int == li && queue[q].1 as int == l && #[trigger] queue[q].2.has(c);
            assert(queue.push(e)[q] == queue[q]);
        }
    }
}

/// The seed just pushed for the source at `i` covers it.
proof fn lemma_fill_seeded(
    size: GridSize,
    sk: Seq<Option<Cell>>,
    cells: Seq<Option<Cell>>,
    queue: Seq<(usize, usize, ColorSet)>,
    e: (usize, usize, ColorSet),
    i: int,
)
    requires
        fill_inv(size, sk, cells, queue.push(e), 0, (-1, -1), i),
        e.0 == i,
        e.1 == 0,
        sk == skeleton(cells),
        0 <= i < cells.len(),
        cells[i] is Some,
        cells[i].unwrap().spec_source() is Some,
        forall|c: Color| #[trigger] e.2.has(c) <==> Some(c) == cells[i].unwrap().spec_source(),
        forall|c: Color| #[trigger] e.2.has(c) ==> pending(cells, queue.push(e), 0, e.0 as int, e.1 as int, c),
    ensures
        fill_inv(size, sk, cells, queue.push(e), 0, (-1, -1), i + 1),
{
    reveal(fill_inv);
    lemma_skeleton_cells(cells);
    assert forall|li: int, c: Color|
        #![trigger is_source(sk, li, c)]
        0 <= li < i + 1 && is_source(sk, li, c) implies pending(cells, queue.push(e), 0, li, 0, c) by {
        if li == i {
            assert(e.2.has(c));
        }
    }
}

/// A position that is no source needs no seed.
proof fn lemma_fill_no_seed(
    size: GridSize,
    sk: Seq<Option<Cell>>,
    cells: Seq<Option<Cell>>,
    queue: Seq<(usize, usize, ColorSet)>,
    i: int,
)
    requires
        fill_inv(size, sk, cells, queue, 0, (-1, -1), i),
        sk == skeleton(cells),
        0 <= i < cells.len(),
        cells[i] is None || cells[i].unwrap().spec_source() is None,
    ensures
        fill_inv(size, sk, cells, queue, 0, (-1, -1), i + 1),
{
    reveal(fill_inv);
    lemma_skeleton_cells(cells);
}

/// An entry whose colors the layer already holds is done with.
proof fn lemma_fill_pop_unchanged(
    size: GridSize,
    sk: Seq<Option<Cell>>,
    cells: Seq<Option<Cell>>,
    queue: Seq<(usize, usize, ColorSet)>,
    head: int,
)
    requires
        fill_inv(size, sk, cells, queue, head, (-1, -1), cells.len() as int),
        0 <= head < queue.len(),
        forall|c: Color|
            #[trigger] queue[head].2.has(c) ==> fill_at(cells, queue[head].0 as int, queue[head].1 as int).has(c),
    ensures
        fill_inv(size, sk, cells, queue, head + 1, (-1, -1), cells.len() as int),
{
    reveal(fill_inv);
    lemma_pending_pop(cells, queue, head);
}

/// Once the entry at `head` is merged into its layer, what was pending stays pending.
proof fn lemma_pending_pop(cells: Seq<Option<Cell>>, queue: Seq<(usize, usize, ColorSet)>, head: int)
    requires
        0 <= head < queue.len(),
        forall|c: Color|
            #[trigger] queue[head].2.has(c) ==> fill_at(cells, queue[head].0 as int, queue[head].1 as int).has(c),
    ensures
        forall|li: int, l: int, c: Color|
            #[trigger] pending(cells, queue, head, li, l, c) ==> pending(cells, queue, head + 1, li, l, c),
{
    assert forall|li: int, l: int, c: Color|
        #[trigger] pending(cells, queue, head, li, l, c) implies pending(cells, queue, head + 1, li, l, c) by {
        if !fill_at(cells, li, l).has(c) {
            let q = choose|q: int|
                head <= q < queue.len() && queue[q].0 as int == li && queue[q].1 as int == l && #[trigger] queue[q].2.has(c);
            if q == head {
                assert(fill_at(cells, queue[head].0 as int, queue[head].1 as int).has(c));
            }
        }
    }
}

/// Merging the entry at `head` into its layer keeps the invariant, with that
/// layer left to pass its new fill on.
proof fn lemma_fill_grow(
    size: GridSize,
    sk: Seq<Option<Cell>>,
    before: Seq<Option<Cell>>,
    after: Seq<Option<Cell>>,
    queue: Seq<(usize, usize, ColorSet)>,
    head: int,
    li: int,
    l: int,
    to_fill: ColorSet,
    union: ColorSet,
)
    requires
        fill_inv(size, sk, before, queue, head, (-1, -1), before.len() as int),
        sk == skeleton(before),
        cells_wf(before),
        0 <= head < queue.len(),
        queue[head] == (li as usize, l as usize, to_fill),
        0 <= li < before.len(),
        before[li] is Some,
        before[li].unwrap().layer(l) is Some,
        li < usize::MAX,
        0 <= l < 2,
        union.wf(),
        forall|c: Color| #[trigger] union.has(c) <==> (fill_at(before, li, l).has(c) || to_fill.has(c)),
        union != fill_at(before, li, l),
        after == before.update(li, Some(before[li].unwrap().with_fill(l, union))),
    ensures
        fill_inv(size, sk, after, queue, head + 1, (li, l), before.len() as int),
        skeleton(after) == sk,
        cells_wf(after),
        missing_bits(after) < missing_bits(before),
        fill_at(after, li, l) == union,
        layer_at(after, li, l) is Some,
        forall|c: Color| #[trigger] union.has(c) ==> reachable(size, sk, sources_of(sk, c), (li, l)),
{
    lemma_grow_cells(before, after, li, l, union);
    lemma_union_reachable(size, sk, before, queue, head, li, l, to_fill, union);
    lemma_pending_grow(before, after, queue, head, li, l, to_fill, union);
    lemma_grow_inv(size, sk, before, after, queue, head, li, l, union);
}

/// The colors merged into a layer come from sources that connect to it.
proof fn lemma_union_reachable(
    size: GridSize,
    sk: Seq<Option<Cell>>,
    before: Seq<Option<Cell>>,
    queue: Seq<(usize, usize, ColorSet)>,
    head: int,
    li: int,
    l: int,
    to_fill: ColorSet,
    union: ColorSet,
)
    requires
        fill_inv(size, sk, before, queue, head, (-1, -1), before.len() as int),
        0 <= head < queue.len(),
        queue[head] == (li as usize, l as usize, to_fill),
        0 <= li < usize::MAX,
        0 <= l < 2,
        layer_at(before, li, l) is Some,
        forall|c: Color| #[trigger] union.has(c) <==> (fill_at(before, li, l).has(c) || to_fill.has(c)),
    ensures
        forall|c: Color| #[trigger] union.has(c) ==> reachable(size, sk, sources_of(sk, c), (li, l)),
{
    reveal(fill_inv);
    assert forall|c: Color| #[trigger] union.has(c) implies reachable(size, sk, sources_of(sk, c), (li, l)) by {
        if fill_at(before, li, l).has(c) {
        } else {
            assert(queue[head].2.has(c));
        }
    }
}

/// The cells after one layer's fill grows: same structure, well formed, fewer
/// colors left to gain, and every other layer unchanged.
proof fn lemma_grow_cells(before: Seq<Option<Cell>>, after: Seq<Option<Cell>>, li: int, l: int, union: ColorSet)
    requires
        cells_wf(before),
        0 <= li < before.len(),
        before[li] is Some,
        before[li].unwrap().layer(l) is Some,
        union.wf(),
        forall|c: Color| fill_at(before, li, l).has(c) ==> #[trigger] union.has(c),
        union != fill_at(before, li, l),
        after == before.update(li, Some(before[li].unwrap().with_fill(l, union))),
    ensures
        skeleton(after) == skeleton(before),
        cells_wf(after),
        missing_bits(after) < missing_bits(before),
        fill_at(after, li, l) == union,
        forall|a: int, b: int| #[trigger] layer_at(after, a, b) is Some == layer_at(before, a, b) is Some,
        forall|a: int, b: int| !(a == li && b == l) ==> #[trigger] fill_at(after, a, b) == fill_at(before, a, b),
{
    let cell = before[li].unwrap();
    let cell2 = cell.with_fill(l, union);
    let f = fill_at(before, li, l);
    assert(cell.wf());
    lemma_with_fill(cell, l, union);
    lemma_skeleton_cells(before);
    lemma_skeleton_cells(after);
    assert(skeleton(after) =~= skeleton(before)) by {
        assert forall|j: int| 0 <= j < after.len() implies skeleton(after)[j] == skeleton(before)[j] by {}
    }
    assert forall|j: int| 0 <= j < after.len() && (#[trigger] after[j]) is Some implies after[j].unwrap().wf() by {
        if j != li {
            assert(after[j] == before[j]);
        }
    }
    assert(f.wf());
    if forall|x: Color| #[trigger] union.has(x) == f.has(x) {
        ColorSet::lemma_ext_equal(union, f);
    }
    let x = choose|x: Color| !(#[trigger] union.has(x) == f.has(x));
    assert(union.has(x) && !f.has(x));
    assert(union.spec_len() > f.spec_len());
    lemma_with_fill_missing(cell, l, union);
    lemma_missing_bits_update(before, li, cell2);
    assert forall|a: int, b: int| #[trigger] layer_at(after, a, b) is Some == layer_at(before, a, b) is Some by {}
    assert forall|a: int, b: int| !(a == li && b == l) implies #[trigger] fill_at(after, a, b) == fill_at(before, a, b) by {}
}

/// The invariant carries over to the cells after one layer's fill grows.
#[verifier::rlimit(50)]
proof fn lemma_grow_inv(
    size: GridSize,
    sk: Seq<Option<Cell>>,
    before: Seq<Option<Cell>>,
    after: Seq<Option<Cell>>,
    queue: Seq<(usize, usize, ColorSet)>,
    head: int,
    li: int,
    l: int,
    union: ColorSet,
)
    requires
        fill_inv(size, sk, before, queue, head, (-1, -1), before.len() as int),
        0 <= head < queue.len(),
        after.len() == before.len(),
        fill_at(after, li, l) == union,
        forall|c: Color| #[trigger] union.has(c) ==> reachable(size, sk, sources_of(sk, c), (li, l)),
        forall|a: int, b: int| #[trigger] layer_at(after, a, b) is Some == layer_at(before, a, b) is Some,
        forall|a: int, b: int| !(a == li && b == l) ==> #[trigger] fill_at(after, a, b) == fill_at(before, a, b),
        forall|a: int, b: int, c: Color|
            #[trigger] pending(before, queue, head, a, b, c) ==> pending(after, queue, head + 1, a, b, c),
    ensures
        fill_inv(size, sk, after, queue, head + 1, (li, l), before.len() as int),
{
    reveal(fill_inv);
    assert forall|a: int, b: int, c: Color|
        #![trigger fill_at(after, a, b).has(c)]
        layer_at(after, a, b) is Some && fill_at(after, a, b).has(c) implies reachable(size, sk, sources_of(sk, c), (a, b)) by {
        if !(a == li && b == l) {
            assert(fill_at(after, a, b) == fill_at(before, a, b));
        }
    }
    assert forall|q: int| 0 <= q < queue.len() implies (#[trigger] queue[q]).0 < after.len() && queue[q].1 < 2 && layer_at(
        after,
        queue[q].0 as int,
        queue[q].1 as int,
    ) is Some && queue[q].2.wf() by {
        assert(layer_at(before, queue[q].0 as int, queue[q].1 as int) is Some);
    }
    assert forall|a: int, b: int, c: Color, d: Direction|
        #![trigger fill_at(after, a, b).has(c), step(size, sk, a, b, d)]
        layer_at(after, a, b) is Some && fill_at(after, a, b).has(c) && step(size, sk, a, b, d) is Some && (a, b) != (li, l)
        implies pending(after, queue, head + 1, step(size, sk, a, b, d).unwrap().0, step(size, sk, a, b, d).unwrap().1, c) by {
        assert(fill_at(after, a, b) == fill_at(before, a, b));
        assert(layer_at(before, a, b) is Some);
        assert(pending(before, queue, head, step(size, sk, a, b, d).unwrap().0, step(size, sk, a, b, d).unwrap().1, c));
    }
    assert forall|a: int, c: Color|
        #![trigger is_source(sk, a, c)]
        0 <= a < before.len() && is_source(sk, a, c) implies pending(after, queue, head + 1, a, 0, c) by {
        assert(pending(before, queue, head, a, 0, c));
    }
}

/// Replacing the fill of one layer keeps the structure and the other layers.
proof fn lemma_with_fill(cell: Cell, l: int, union: ColorSet)
    requires
        cell.wf(),
        cell.layer(l) is Some,
        union.wf(),
    ensures
        cell.with_fill(l, union).cleared() == cell.cleared(),
        cell.with_fill(l, union).wf(),
        cell.with_fill(l, union).spec_source() == cell.spec_source(),
        forall|k: int| #[trigger] cell.with_fill(l, union).layer(k) is Some == cell.layer(k) is Some,
        forall|k: int| k != l && cell.layer(k) is Some ==> #[trigger] cell.with_fill(l, union).layer(k) == cell.layer(k),
        cell.with_fill(l, union).layer(l) == Some(CellLayer { connections: cell.layer(l).unwrap().connections, fill: union }),
{
    broadcast use vstd::array::group_array_axioms;

    let cell2 = cell.with_fill(l, union);
    if let CellData::Intersection { layers } = cell.data {
        assert(cell2.cleared().data matches CellData::Intersection { layers: x } && x@ =~= seq![
            layers@[0].cleared(),
            layers@[1].cleared(),
        ]);
        if let CellData::Intersection { layers: l2 } = cell2.data {
            assert forall|d: Direction| !(#[trigger] l2@[0].connections.at(d) && l2@[1].connections.at(d)) by {
                assert(!(layers@[0].connections.at(d) && layers@[1].connections.at(d)));
            }
        }
    }
}

/// A layer that gains a color leaves fewer colors to gain.
proof fn lemma_with_fill_missing(cell: Cell, l: int, union: ColorSet)
    requires
        cell.wf(),
        cell.layer(l) is Some,
        union.spec_len() > cell.layer(l).unwrap().fill.spec_len(),
    ensures
        cell_missing(cell.with_fill(l, union)) < cell_missing(cell),
{
    broadcast use vstd::array::group_array_axioms;

}

/// After merging the entry at `head` into its layer, what was pending stays pending.
proof fn lemma_pending_grow(
    before: Seq<Option<Cell>>,
    after: Seq<Option<Cell>>,
    queue: Seq<(usize, usize, ColorSet)>,
    head: int,
    li: int,
    l: int,
    to_fill: ColorSet,
    union: ColorSet,
)
    requires
        0 <= head < queue.len(),
        queue[head] == (li as usize, l as usize, to_fill),
        0 <= li < before.len(),
        li <= usize::MAX,
        0 <= l <= usize::MAX,
        forall|c: Color| #[trigger] union.has(c) <==> (fill_at(before, li, l).has(c) || to_fill.has(c)),
        fill_at(after, li, l) == union,
        forall|a: int, b: int| !(a == li && b == l) ==> #[trigger] fill_at(after, a, b) == fill_at(before, a, b),
    ensures
        forall|a: int, b: int, c: Color|
            #[trigger] pending(before, queue, head, a, b, c) ==> pending(after, queue, head + 1, a, b, c),
{
    assert forall|a: int, b: int, c: Color|
        #[trigger] pending(before, queue, head, a, b, c) implies pending(after, queue, head + 1, a, b, c) by {
        if a == li && b == l {
            if fill_at(before, a, b).has(c) {
                assert(union.has(c));
            } else {
                let q = choose|q: int|
                    head <= q < queue.len() && queue[q].0 as int == a && queue[q].1 as int == b && #[trigger] queue[q].2.has(c);
                if q == head {
                    assert(union.has(c));
                } else {
                    assert(queue[q].2.has(c));
                }
            }
        } else {
            assert(fill_at(after, a, b) == fill_at(before, a, b));
            if !fill_at(before, a, b).has(c) {
                let q = choose|q: int|
                    head <= q < queue.len() && queue[q].0 as int == a && queue[q].1 as int == b && #[trigger] queue[q].2.has(c);
                assert(q != head);
            }
        }
    }
}

/// Once the layer being worked on has passed its fill on, nothing is exempt.
proof fn lemma_fill_close(
    size: GridSize,
    sk: Seq<Option<Cell>>,
    cells: Seq<Option<Cell>>,
    queue: Seq<(usize, usize, ColorSet)>,
    head: int,
    cur: (int, int),
    seeded: int,
    union: ColorSet,
)
    requires
        fill_inv(size, sk, cells, queue, head, cur, seeded),
        fill_at(cells, cur.0, cur.1) == union,
        forall|c: Color, d: Direction|
            #![trigger union.has(c), step(size, sk, cur.0, cur.1, d)]
            union.has(c) && step(size, sk, cur.0, cur.1, d) is Some ==> pending(
                cells,
                queue,
                head,
                step(size, sk, cur.0, cur.1, d).unwrap().0,
                step(size, sk, cur.0, cur.1, d).unwrap().1,
                c,
            ),
    ensures
        fill_inv(size, sk, cells, queue, head, (-1, -1), seeded),
{
    reveal(fill_inv);
    assert forall|a: int, b: int, c: Color, d: Direction|
        #![trigger fill_at(cells, a, b).has(c), step(size, sk, a, b, d)]
        layer_at(cells, a, b) is Some && fill_at(cells, a, b).has(c) && step(size, sk, a, b, d) is Some && (a, b) != (-1int, -1int)
        implies pending(cells, queue, head, step(size, sk, a, b, d).unwrap().0, step(size, sk, a, b, d).unwrap().1, c) by {
        if (a, b) == cur {
            assert(union.has(c));
        }
    }
}

/// With nothing left to explore, the fills are exactly the colors of the sources
/// that connect to each layer.
proof fn lemma_fill_done(size: GridSize, sk: Seq<Option<Cell>>, cells: Seq<Option<Cell>>, queue: Seq<(usize, usize, ColorSet)>)
    requires
        fill_inv(size, sk, cells, queue, queue.len() as int, (-1, -1), cells.len() as int),
        sk == skeleton(cells),
        cells.len() == size.area(),
    ensures
        is_filled(size, cells),
{
    reveal(fill_inv);
    lemma_skeleton_cells(cells);
    assert forall|li: int, l: int, c: Color|
        #![trigger fill_at(cells, li, l).has(c)]
        layer_at(cells, li, l).is_some() implies (fill_at(cells, li, l).has(c) <==> colored(size, cells, c, li, l)) by {
        if colored(size, cells, c, li, l) {
            let path = choose|path: Seq<(int, int)>|
                #[trigger] is_path(size, sk, path) && sources_of(sk, c).contains(path[0]) && path.last() == (li, l);
            lemma_fill_path(size, sk, cells, queue, c, path, path.len() - 1);
        }
    }
}

/// Every layer of a path from a source of `c` holds `c` once nothing is left to explore.
proof fn lemma_fill_path(
    size: GridSize,
    sk: Seq<Option<Cell>>,
    cells: Seq<Option<Cell>>,
    queue: Seq<(usize, usize, ColorSet)>,
    c: Color,
    path: Seq<(int, int)>,
    i: int,
)
    requires
        fill_inv(size, sk, cells, queue, queue.len() as int, (-1, -1), cells.len() as int),
        sk == skeleton(cells),
        cells.len() == size.area(),
        is_path(size, sk, path),
        sources_of(sk, c).contains(path[0]),
        0 <= i < path.len(),
    ensures
        layer_at(cells, path[i].0, path[i].1) is Some,
        fill_at(cells, path[i].0, path[i].1).has(c),
    decreases i,
{
    reveal(fill_inv);
    lemma_skeleton_cells(cells);
    if i == 0 {
        let s = path[0];
        assert(is_source(sk, s.0, c));
        assert(pending(cells, queue, queue.len() as int, s.0, 0, c));
    } else {
        lemma_fill_path(size, sk, cells, queue, c, path, i - 1);
        let p = path[i - 1];
        assert(linked(size, sk, path[i - 1], path[i]));
        let d = if step(size, sk, p.0, p.1, Direction::E) == Some(path[i]) {
            Direction::E
        } else if step(size, sk, p.0, p.1, Direction::N) == Some(path[i]) {
            Direction::N
        } else if step(size, sk, p.0, p.1, Direction::W) == Some(path[i]) {
            Direction::W
        } else {
            Direction::S
        };
        lemma_step_valid(size, sk, p.0, p.1, d);
        assert(pending(cells, queue, queue.len() as int, path[i].0, path[i].1, c));
    }
}

impl Grid<Cell> {
    /// The grid is well formed and so is each of its cells.
    pub open spec fn game_wf(&self) -> bool {
        self.wf() && cells_wf(self@)
    }

    /// Where a layer leads in a direction, by row-major position.
    fn step_exec(&self, li: usize, l: usize, d: Direction) -> (r: Option<(usize, usize)>)
        requires
            self.wf(),
            li < self@.len(),
        ensures
            r is Some <==> step(self.spec_size(), skeleton(self@), li as int, l as int, d) is Some,
            r is Some ==> step(self.spec_size(), skeleton(self@), li as int, l as int, d) == Some(
                (r.unwrap().0 as int, r.unwrap().1 as int),
            ),
    {
        proof {
            lemma_skeleton_cells(self@);
        }
        let size = self.size();
        match self.get_at_linear(li) {
            Some(cell) => match cell.get_layer(l) {
                Some(ly) => {
                    if ly.connections.contains(d) {
                        let idx = get_index_from_linear_index(size, li);
                        match idx.moved_in(d) {
                            Some(m) => match get_linear_index(size, m) {
                                Some(n) => match self.get_at_linear(n) {
                                    Some(nc) => match nc.get_layer_for_direction(d.inverse()) {
                                        Some((nl, _)) => Some((n, nl)),
                                        None => None,
                                    },
                                    None => None,
                                },
                                None => None,
                            },
                            None => None,
                        }
                    } else {
                        None
                    }
                },
                None => None,
            },
            None => None,
        }
    }

    /// Marks every layer reachable from the seeds by following connections.
    fn reach_from(&self, seeds: &Vec<(usize, usize)>) -> (r: Vec<(bool, bool)>)
        requires
            self.wf(),
            forall|i: int|
                0 <= i < seeds@.len() ==> (#[trigger] seeds@[i]).0 < self@.len() && layer_at(
                    self@,
                    seeds@[i].0 as int,
                    seeds@[i].1 as int,
                ) is Some,
        ensures
            r@.len() == self@.len(),
            forall|li: int, l: int|
                #![trigger vis(r@, li, l)]
                0 <= li < self@.len() && 0 <= l < 2 ==> (vis(r@, li, l) <==> (layer_at(self@, li, l) is Some
                    && reachable(self.spec_size(), skeleton(self@), seed_set(seeds@), (li, l)))),
    {
        let ghost size = self.spec_size();
        let ghost sk = skeleton(self@);
        let ghost seedset = seed_set(seeds@);
        let ghost cells = self@;
        proof {
            lemma_skeleton_cells(self@);
        }
        let n = self.get_area();
        let mut v: Vec<(bool, bool)> = Vec::new();
        let mut i: usize = 0;
        while i < n
            invariant
                n == self@.len(),
                i <= n,
                v@.len() == i,
                forall|j: int| 0 <= j < i ==> #[trigger] v@[j] == (false, false),
            decreases n - i,
        {
            v.push((false, false));
            i = i + 1;
        }
        let mut stack: Vec<(usize, usize)> = Vec::new();
        proof {
            reveal(bfs_inv);
            assert forall|a: int, b: int| 0 <= a < n && 0 <= b < 2 implies !#[trigger] vis(v@, a, b) by {
                assert(v@[a] == (false, false));
            }
        }
        i = 0;
        while i < seeds.len()
            invariant
                self.wf(),
                cells == self@,
                n == self@.len(),
                sk == skeleton(self@),
                sk.len() == n,
                size == self.spec_size(),
                seedset == seed_set(seeds@),
                v@.len() == n,
                i <= seeds@.len(),
                forall|j: int|
                    0 <= j < seeds@.len() ==> (#[trigger] seeds@[j]).0 < self@.len() && layer_at(
                        self@,
                        seeds@[j].0 as int,
                        seeds@[j].1 as int,
                    ) is Some,
                bfs_inv(cells, size, sk, seedset, v@, stack@, (-1, -1)),
                forall|j: int| 0 <= j < i ==> vis(v@, (#[trigger] seeds@[j]).0 as int, seeds@[j].1 as int),
            decreases seeds@.len() - i,
        {
            let (li, l) = seeds[i];
            proof {
                assert(seedset.contains((li as int, l as int)));
                lemma_seed_reachable(size, sk, seedset, (li as int, l as int));
            }
            let ghost old_v = v@;
            self.visit(&mut v, &mut stack, li, l, Ghost(seedset), Ghost((-1, -1)));
            proof {
                assert forall|j: int| 0 <= j < i + 1 implies vis(v@, (#[trigger] seeds@[j]).0 as int, seeds@[j].1 as int) by {
                    if j < i {
                        assert(vis(old_v, seeds@[j].0 as int, seeds@[j].1 as int));
                    }
                }
            }
            i = i + 1;
        }
        while stack.len() > 0
            invariant
                self.wf(),
                cells == self@,
                n == self@.len(),
                sk == skeleton(self@),
                sk.len() == n,
                size == self.spec_size(),
                seedset == seed_set(seeds@),
                v@.len() == n,
                forall|j: int|
                    0 <= j < seeds@.len() ==> (#[trigger] seeds@[j]).0 < self@.len() && layer_at(
                        self@,
                        seeds@[j].0 as int,
                        seeds@[j].1 as int,
                    ) is Some,
                bfs_inv(cells, size, sk, seedset, v@, stack@, (-1, -1)),
                forall|j: int| 0 <= j < seeds@.len() ==> vis(v@, (#[trigger] seeds@[j]).0 as int, seeds@[j].1 as int),
            decreases count_unvisited(v@), stack@.len(),
        {
            let ghost pre = stack@;
            let (li, l) = stack.pop().unwrap();
            let ghost popped_stack = stack@;
            let ghost start_v = v@;
            proof {
                assert(pre == popped_stack.push((li, l)));
                lemma_bfs_pop(cells, size, sk, seedset, v@, pre, popped_stack);
            }
            let all = Direction::all();
            let mut di: usize = 0;
            while di < 4
                invariant
                    self.wf(),
                    cells == self@,
                    n == self@.len(),
                    sk == skeleton(self@),
                    sk.len() == n,
                    size == self.spec_size(),
                    seedset == seed_set(seeds@),
                    v@.len() == n,
                    li < n,
                    l < 2,
                    di <= 4,
                    all@ == seq![Direction::E, Direction::N, Direction::W, Direction::S],
                    reachable(size, sk, seedset, (li as int, l as int)),
                    layer_at(cells, li as int, l as int) is Some,
                    vis(v@, li as int, l as int),
                    stack@.len() >= popped_stack.len(),
                    count_unvisited(v@) + (stack@.len() - popped_stack.len()) == count_unvisited(start_v),
                    bfs_inv(cells, size, sk, seedset, v@, stack@, (li as int, l as int)),
                    forall|j: int| 0 <= j < seeds@.len() ==> vis(v@, (#[trigger] seeds@[j]).0 as int, seeds@[j].1 as int),
                    forall|j: int|
                        0 <= j < seeds@.len() ==> (#[trigger] seeds@[j]).0 < self@.len() && layer_at(
                            self@,
                            seeds@[j].0 as int,
                            seeds@[j].1 as int,
                        ) is Some,
                    forall|e: int|
                        0 <= e < di ==> (step(size, sk, li as int, l as int, #[trigger] all@[e]) is Some ==> vis(
                            v@,
                            step(size, sk, li as int, l as int, all@[e]).unwrap().0,
                            step(size, sk, li as int, l as int, all@[e]).unwrap().1,
                        )),
                decreases 4 - di,
            {
                let d = all[di];
                let ghost before_v = v@;
                let ghost before_stack = stack@;
                match self.step_exec(li, l, d) {
                    Some((ni, nl)) => {
                        proof {
                            lemma_step_valid(size, sk, li as int, l as int, d);
                            lemma_reachable_step(size, sk, seedset, (li as int, l as int), d);
                        }
                        self.visit(&mut v, &mut stack, ni, nl, Ghost(seedset), Ghost((li as int, l as int)));
                    },
                    None => {},
                }
                proof {
                    assert forall|e: int| 0 <= e < di + 1 implies (step(size, sk, li as int, l as int, #[trigger] all@[e])
                        is Some ==> vis(
                        v@,
                        step(size, sk, li as int, l as int, all@[e]).unwrap().0,
                        step(size, sk, li as int, l as int, all@[e]).unwrap().1,
                    )) by {
                        if e < di && step(size, sk, li as int, l as int, all@[e]) is Some {
                            lemma_step_valid(size, sk, li as int, l as int, all@[e]);
                            assert(vis(
                                before_v,
                                step(size, sk, li as int, l as int, all@[e]).unwrap().0,
                                step(size, sk, li as int, l as int, all@[e]).unwrap().1,
                            ));
                        }
                    }
                    assert forall|j: int| 0 <= j < seeds@.len() implies vis(v@, (#[trigger] seeds@[j]).0 as int, seeds@[j].1 as int) by {
                        assert(vis(before_v, seeds@[j].0 as int, seeds@[j].1 as int));
                    }
                }
                di = di + 1;
            }
            proof {
                assert forall|dd: Direction| #[trigger] step(size, sk, li as int, l as int, dd) is Some implies vis(
                    v@,
                    step(size, sk, li as int, l as int, dd).unwrap().0,
                    step(size, sk, li as int, l as int, dd).unwrap().1,
                ) by {
                    let e: int = match dd {
                        Direction::E => 0,
                        Direction::N => 1,
                        Direction::W => 2,
                        Direction::S => 3,
                    };
                    assert(all@[e] == dd);
                }
                assert(closed(size, sk, v@, li as int, l as int));
                lemma_bfs_close(cells, size, sk, seedset, v@, stack@, (li as int, l as int));
            }
        }
        proof {
            reveal(bfs_inv);
            assert forall|li: int, l: int|
                #![trigger vis(v@, li, l)]
                0 <= li < n && 0 <= l < 2 implies (vis(v@, li, l) <==> (layer_at(self@, li, l) is Some
                    && reachable(size, sk, seedset, (li, l)))) by {
                if layer_at(self@, li, l) is Some && reachable(size, sk, seedset, (li, l)) {
                    let path = choose|path: Seq<(int, int)>|
                        #[trigger] is_path(size, sk, path) && seedset.contains(path[0]) && path.last() == (li, l);
                    assert forall|a: int, b: int|
                        #![trigger vis(v@, a, b)]
                        0 <= a < v@.len() && 0 <= b < 2 && vis(v@, a, b) implies closed(size, sk, v@, a, b) by {
                        if stack@.contains((a as usize, b as usize)) {
                            let k = choose|k: int| 0 <= k < stack@.len() && stack@[k] == (a as usize, b as usize);
                        }
                    }
                    lemma_path_visited(size, sk, seeds@, v@, path, path.len() - 1);
                }
            }
        }
        v
    }

    /// Marks a layer as visited and puts it on the stack, unless it is already visited.
    fn visit(
        &self,
        v: &mut Vec<(bool, bool)>,
        stack: &mut Vec<(usize, usize)>,
        li: usize,
        l: usize,
        seedset: Ghost<Set<(int, int)>>,
        cur: Ghost<(int, int)>,
    )
        requires
            self.wf(),
            old(v)@.len() == self@.len(),
            li < self@.len(),
            l < 2,
            layer_at(self@, li as int, l as int) is Some,
            reachable(self.spec_size(), skeleton(self@), seedset@, (li as int, l as int)),
            bfs_inv(self@, self.spec_size(), skeleton(self@), seedset@, old(v)@, old(stack)@, cur@),
        ensures
            final(v)@.len() == old(v)@.len(),
            vis(final(v)@, li as int, l as int),
            bfs_inv(self@, self.spec_size(), skeleton(self@), seedset@, final(v)@, final(stack)@, cur@),
            forall|a: int, b: int|
                #![trigger vis(final(v)@, a, b)]
                0 <= a < old(v)@.len() && vis(old(v)@, a, b) ==> vis(final(v)@, a, b),
            final(stack)@.len() >= old(stack)@.len(),
            count_unvisited(final(v)@) + (final(stack)@.len() - old(stack)@.len()) == count_unvisited(old(v)@),
            old(stack)@.len() > 0 ==> final(stack)@.len() > 0,
    {
        let cur_mark = v[li];
        let seen = if l == 0 {
            cur_mark.0
        } else {
            cur_mark.1
        };
        if !seen {
            let ghost old_v = v@;
            let ghost old_stack = stack@;
            if l == 0 {
                v.set(li, (true, cur_mark.1));
            } else {
                v.set(li, (cur_mark.0, true));
            }
            stack.push((li, l));
            proof {
                assert(v@ == mark(old_v, li as int, l as int));
                assert(stack@ == old_stack.push((li, l)));
                lemma_count_unvisited_mark(old_v, li as int, l as int);
                lemma_bfs_push(self@, self.spec_size(), skeleton(self@), seedset@, old_v, old_stack, cur@, li as int, l as int);
            }
        }
    }
    /// Recomputes every fill: after emptying all fills, a worklist of layers and
    /// colors to merge in starts from each source with its own color; merging
    /// colors that are new to a layer passes the layer's new fill on to each
    /// layer it leads to whose fill differs. Each layer ends up holding exactly
    /// the colors whose sources it connects to.
    #[verifier::rlimit(40)]
    pub fn fill(&mut self)
        requires
            old(self).game_wf(),
        ensures
            final(self).game_wf(),
            final(self).spec_size() == old(self).spec_size(),
            skeleton(final(self)@) == skeleton(old(self)@),
            is_filled(final(self).spec_size(), final(self)@),
    {
        let ghost size = self.spec_size();
        let ghost sk = skeleton(self@);
        proof {
            lemma_skeleton_cells(self@);
        }
        let n = self.get_area();
        let mut i: usize = 0;
        while i < n
            invariant
                self.game_wf(),
                self.spec_size() == size,
                n == self@.len(),
                skeleton(self@) == sk,
                i <= n,
                forall|li: int, l: int, x: Color|
                    0 <= li < i && layer_at(self@, li, l) is Some ==> !(#[trigger] fill_at(self@, li, l).has(x)),
            decreases n - i,
        {
            match self.get_at_linear(i) {
                Some(cell) => {
                    let mut c = cell;
                    c.clear_fill();
                    let ghost old_cells = self@;
                    self.set_at_linear(i, Some(c));
                    proof {
                        ColorSet::lemma_nothing();
                        assert(skeleton(self@) =~= skeleton(old_cells));
                        assert forall|li: int, l: int, x: Color|
                            0 <= li < i + 1 && layer_at(self@, li, l) is Some implies !(#[trigger] fill_at(
                            self@,
                            li,
                            l,
                        ).has(x)) by {
                            if li < i {
                                assert(self@[li] == old_cells[li]);
                                assert(layer_at(old_cells, li, l) == layer_at(self@, li, l));
                                assert(!fill_at(old_cells, li, l).has(x));
                            } else {
                                broadcast use vstd::array::group_array_axioms;

                                assert(fill_at(self@, li, l) == ColorSet::nothing());
                                assert(ColorSet::nothing().spec_is_empty());
                                assert(!ColorSet::nothing().has(x));
                            }
                        }
                    }
                },
                None => {},
            }
            i = i + 1;
        }
        let mut queue: Vec<(usize, usize, ColorSet)> = Vec::new();
        proof {
            reveal(fill_inv);
            lemma_skeleton_cells(self@);
        }
        i = 0;
        while i < n
            invariant
                self.game_wf(),
                self.spec_size() == size,
                n == self@.len(),
                skeleton(self@) == sk,
                i <= n,
                fill_inv(size, sk, self@, queue@, 0, (-1, -1), i as int),
            decreases n - i,
        {
            match self.get_at_linear(i) {
                Some(cell) => match cell.source() {
                    Some(color) => {
                        let seed = ColorSet::singleton(color);
                        proof {
                            lemma_skeleton_cells(self@);
                            ColorSet::lemma_singleton(color);
                            assert(is_source(sk, i as int, color));
                            assert(sources_of(sk, color).contains((i as int, 0)));
                            lemma_seed_reachable(size, sk, sources_of(sk, color), (i as int, 0));
                            lemma_fill_push(size, sk, self@, queue@, 0, (-1, -1), i as int, (i, 0, seed));
                        }
                        let ghost old_queue = queue@;
                        queue.push((i, 0, seed));
                        proof {
                            lemma_fill_seeded(size, sk, self@, old_queue, (i, 0, seed), i as int);
                        }
                    },
                    None => {
                        proof {
                            lemma_fill_no_seed(size, sk, self@, queue@, i as int);
                        }
                    },
                },
                None => {
                    proof {
                        lemma_fill_no_seed(size, sk, self@, queue@, i as int);
                    }
                },
            }
            i = i + 1;
        }
        let mut head: usize = 0;
        while head < queue.len()
            invariant
                self.game_wf(),
                self.spec_size() == size,
                n == self@.len(),
                skeleton(self@) == sk,
                head <= queue@.len(),
                fill_inv(size, sk, self@, queue@, head as int, (-1, -1), n as int),
            decreases missing_bits(self@), queue@.len() - head,
        {
            let (li, l, to_fill) = queue[head];
            proof {
                reveal(fill_inv);
                assert(queue@[head as int] == (li, l, to_fill));
            }
            let cell = self.get_at_linear(li).unwrap();
            let current = cell.get_layer(l).unwrap().fill;
            proof {
                assert(cell.wf());
                assert(fill_at(self@, li as int, l as int) == current);
            }
            let union = current.union(to_fill);
            if union != current {
                let ghost before = self@;
                let mut updated = cell;
                updated.set_fill(l, union);
                self.set_at_linear(li, Some(updated));
                let ghost grown = self@;
                proof {
                    lemma_fill_grow(size, sk, before, self@, queue@, head as int, li as int, l as int, to_fill, union);
                }
                self.pass_on(&mut queue, Ghost(head as int), li, l, union);
            } else {
                proof {
                    assert forall|c: Color| #[trigger] to_fill.has(c) implies fill_at(self@, li as int, l as int).has(c) by {
                        assert(union.has(c));
                    }
                    lemma_fill_pop_unchanged(size, sk, self@, queue@, head as int);
                }
            }
            head = head + 1;
        }
        proof {
            lemma_fill_done(size, sk, self@, queue@);
        }
    }

    /// Passes the new fill of a layer on: an entry for each layer it leads to
    /// whose fill differs.
    fn pass_on(
        &self,
        queue: &mut Vec<(usize, usize, ColorSet)>,
        head: Ghost<int>,
        li: usize,
        l: usize,
        union: ColorSet,
    )
        requires
            self.game_wf(),
            0 <= head@ < old(queue)@.len(),
            li < self@.len(),
            l < 2,
            union.wf(),
            fill_at(self@, li as int, l as int) == union,
            layer_at(self@, li as int, l as int) is Some,
            forall|c: Color| #[trigger] union.has(c) ==> reachable(
                self.spec_size(),
                skeleton(self@),
                sources_of(skeleton(self@), c),
                (li as int, l as int),
            ),
            fill_inv(
                self.spec_size(),
                skeleton(self@),
                self@,
                old(queue)@,
                head@ + 1,
                (li as int, l as int),
                self@.len() as int,
            ),
        ensures
            final(queue)@.len() >= old(queue)@.len(),
            fill_inv(self.spec_size(), skeleton(self@), self@, final(queue)@, head@ + 1, (-1, -1), self@.len() as int),
    {
        let ghost size = self.spec_size();
        let ghost sk = skeleton(self@);
        let n = self.get_area();
        let ghost start_len = queue@.len();
        let ghost hd = head@;
        let all = Direction::all();
        let mut di: usize = 0;
        while di < 4
            invariant
                self.game_wf(),
                self.spec_size() == size,
                n == self@.len(),
                skeleton(self@) == sk,
                0 <= hd < queue@.len(),
                hd == head@,
                queue@.len() >= start_len,
                li < n,
                l < 2,
                all@ == seq![Direction::E, Direction::N, Direction::W, Direction::S],
                di <= 4,
                union.wf(),
                fill_at(self@, li as int, l as int) == union,
                layer_at(self@, li as int, l as int) is Some,
                forall|c: Color| #[trigger] union.has(c) ==> reachable(size, sk, sources_of(sk, c), (li as int, l as int)),
                fill_inv(size, sk, self@, queue@, hd + 1, (li as int, l as int), n as int),
                forall|e: int, c: Color|
                    #![trigger union.has(c), all@[e]]
                    0 <= e < di && union.has(c) && step(size, sk, li as int, l as int, all@[e]) is Some ==> pending(
                        self@,
                        queue@,
                        hd + 1,
                        step(size, sk, li as int, l as int, all@[e]).unwrap().0,
                        step(size, sk, li as int, l as int, all@[e]).unwrap().1,
                        c,
                    ),
            decreases 4 - di,
        {
            let d = all[di];
            match self.step_exec(li, l, d) {
                Some((ni, nl)) => {
                    proof {
                        lemma_step_valid(size, sk, li as int, l as int, d);
                        lemma_skeleton_cells(self@);
                    }
                    let neighbor = self.get_at_linear(ni).unwrap();
                    let neighbor_fill = neighbor.get_layer(nl).unwrap().fill;
                    if union != neighbor_fill {
                        let ghost old_queue = queue@;
                        proof {
                            assert forall|c: Color| #[trigger] union.has(c) implies reachable(
                                size,
                                sk,
                                sources_of(sk, c),
                                (ni as int, nl as int),
                            ) by {
                                lemma_reachable_step(size, sk, sources_of(sk, c), (li as int, l as int), d);
                            }
                            lemma_fill_push(size, sk, self@, queue@, hd + 1, (li as int, l as int), n as int, (ni, nl, union));
                        }
                        queue.push((ni, nl, union));
                        proof {
                            lemma_pending_push_keeps(self@, old_queue, hd + 1, (ni, nl, union));
                            assert forall|e: int, c: Color|
                                #![trigger union.has(c), all@[e]]
                                0 <= e < di + 1 && union.has(c) && step(size, sk, li as int, l as int, all@[e]) is Some
                                implies pending(
                                self@,
                                queue@,
                                hd + 1,
                                step(size, sk, li as int, l as int, all@[e]).unwrap().0,
                                step(size, sk, li as int, l as int, all@[e]).unwrap().1,
                                c,
                            ) by {
                                if e < di {
                                    assert(pending(
                                        self@,
                                        old_queue,
                                        hd + 1,
                                        step(size, sk, li as int, l as int, all@[e]).unwrap().0,
                                        step(size, sk, li as int, l as int, all@[e]).unwrap().1,
                                        c,
                                    ));
                                } else {
                                    assert(queue@[old_queue.len() as int] == (ni, nl, union));
                                    assert(queue@[old_queue.len() as int].2.has(c));
                                }
                            }
                        }
                    } else {
                        proof {
                            assert(fill_at(self@, ni as int, nl as int) == neighbor_fill);
                        }
                    }
                },
                None => {},
            }
            di = di + 1;
        }
        proof {
            assert forall|c: Color, dd: Direction|
                #![trigger union.has(c), step(size, sk, li as int, l as int, dd)]
                union.has(c) && step(size, sk, li as int, l as int, dd) is Some implies pending(
                self@,
                queue@,
                hd + 1,
                step(size, sk, li as int, l as int, dd).unwrap().0,
                step(size, sk, li as int, l as int, dd).unwrap().1,
                c,
            ) by {
                let e: int = match dd {
                    Direction::E => 0,
                    Direction::N => 1,
                    Direction::W => 2,
                    Direction::S => 3,
                };
                assert(all@[e] == dd);
            }
            lemma_fill_close(size, sk, self@, queue@, hd + 1, (li as int, l as int), n as int, union);
        }
    }

    /// Whether one direction of one layer is either closed or meets a neighbor that opens back.
    fn dir_ok(&self, li: usize, l: usize, d: Direction) -> (r: bool)
        requires
            self.wf(),
            li < self@.len(),
        ensures
            r == conn_ok(self.spec_size(), self@, li as int, l as int, d),
    {
        match self.get_at_linear(li) {
            Some(cell) => match cell.get_layer(l) {
                Some(ly) => !ly.connections.contains(d) || self.step_exec(li, l, d).is_some(),
                None => true,
            },
            None => true,
        }
    }

    /// Whether every connection of the grid meets a neighbor that opens back.
    fn check_connected(&self) -> (r: bool)
        requires
            self.wf(),
        ensures
            r == all_connected(self.spec_size(), self@),
    {
        let n = self.get_area();
        let mut li: usize = 0;
        while li < n
            invariant
                self.wf(),
                n == self@.len(),
                li <= n,
                forall|a: int, b: int, d: Direction|
                    0 <= a < li ==> #[trigger] conn_ok(self.spec_size(), self@, a, b, d),
            decreases n - li,
        {
            let mut l: usize = 0;
            while l < 2
                invariant
                    self.wf(),
                    n == self@.len(),
                    li < n,
                    l <= 2,
                    forall|a: int, b: int, d: Direction|
                        0 <= a < li ==> #[trigger] conn_ok(self.spec_size(), self@, a, b, d),
                    forall|b: int, d: Direction|
                        0 <= b < l ==> #[trigger] conn_ok(self.spec_size(), self@, li as int, b, d),
                decreases 2 - l,
            {
                let e = self.dir_ok(li, l, Direction::E);
                let no = self.dir_ok(li, l, Direction::N);
                let w = self.dir_ok(li, l, Direction::W);
                let so = self.dir_ok(li, l, Direction::S);
                if !(e && no && w && so) {
                    return false;
                }
                proof {
                    assert forall|b: int, d: Direction|
                        0 <= b < l + 1 implies #[trigger] conn_ok(self.spec_size(), self@, li as int, b, d) by {
                        match d {
                            Direction::E => {},
                            Direction::N => {},
                            Direction::W => {},
                            Direction::S => {},
                        }
                    }
                }
                l = l + 1;
            }
            proof {
                assert forall|a: int, b: int, d: Direction|
                    0 <= a < li + 1 implies #[trigger] conn_ok(self.spec_size(), self@, a, b, d) by {
                    if a == li && !(0 <= b < 2) {
                        assert(layer_at(self@, a, b) is None);
                    }
                }
            }
            li = li + 1;
        }
        proof {
            assert forall|a: int, b: int, d: Direction| #[trigger] conn_ok(self.spec_size(), self@, a, b, d) by {
                if !(0 <= a < n) {
                    assert(layer_at(self@, a, b) is None);
                }
            }
        }
        true
    }

    /// Whether every layer holds a color.
    fn check_filled(&self) -> (r: bool)
        requires
            self.game_wf(),
        ensures
            r == all_filled(self@),
    {
        let n = self.get_area();
        let mut li: usize = 0;
        while li < n
            invariant
                self.game_wf(),
                n == self@.len(),
                li <= n,
                forall|a: int, b: int| 0 <= a < li ==> #[trigger] filled_ok(self@, a, b),
            decreases n - li,
        {
            match self.get_at_linear(li) {
                Some(cell) => {
                    let layers = cell.iter_layers();
                    let mut l: usize = 0;
                    while l < layers.len()
                        invariant
                            self.game_wf(),
                            n == self@.len(),
                            li < n,
                            self@[li as int] == Some(cell),
                            layers@.len() == cell.layer_count(),
                            forall|k: int| 0 <= k < layers@.len() ==> cell.layer(k) == Some(#[trigger] layers@[k]),
                            l <= layers@.len(),
                            forall|a: int, b: int| 0 <= a < li ==> #[trigger] filled_ok(self@, a, b),
                            forall|b: int| 0 <= b < l ==> #[trigger] filled_ok(self@, li as int, b),
                        decreases layers@.len() - l,
                    {
                        let layer = layers[l];
                        assert(cell.wf());
                        assert(layer.fill.wf());
                        if layer.fill.is_empty() {
                            assert(!filled_ok(self@, li as int, l as int));
                            return false;
                        }
                        l = l + 1;
                    }
                    proof {
                        assert forall|a: int, b: int| 0 <= a < li + 1 implies #[trigger] filled_ok(self@, a, b) by {
                            if a == li && !(0 <= b < layers@.len()) {
                                assert(layer_at(self@, a, b) is None);
                            }
                        }
                    }
                },
                None => {},
            }
            li = li + 1;
        }
        proof {
            assert forall|a: int, b: int| #[trigger] filled_ok(self@, a, b) by {
                if !(0 <= a < n) {
                    assert(layer_at(self@, a, b) is None);
                }
            }
        }
        true
    }

    /// Whether some layer holds two colors or more.
    fn check_double(&self) -> (r: bool)
        requires
            self.game_wf(),
        ensures
            r == double_filled(self@),
    {
        let n = self.get_area();
        let mut li: usize = 0;
        while li < n
            invariant
                self.game_wf(),
                n == self@.len(),
                li <= n,
                forall|a: int, b: int| 0 <= a < li ==> !#[trigger] double_at(self@, a, b),
            decreases n - li,
        {
            match self.get_at_linear(li) {
                Some(cell) => {
                    let layers = cell.iter_layers();
                    let mut l: usize = 0;
                    while l < layers.len()
                        invariant
                            self.game_wf(),
                            n == self@.len(),
                            li < n,
                            self@[li as int] == Some(cell),
                            layers@.len() == cell.layer_count(),
                            forall|k: int| 0 <= k < layers@.len() ==> cell.layer(k) == Some(#[trigger] layers@[k]),
                            l <= layers@.len(),
                            forall|a: int, b: int| 0 <= a < li ==> !#[trigger] double_at(self@, a, b),
                            forall|b: int| 0 <= b < l ==> !#[trigger] double_at(self@, li as int, b),
                        decreases layers@.len() - l,
                    {
                        let layer = layers[l];
                        if layer.fill.len() >= 2 {
                            assert(double_at(self@, li as int, l as int));
                            return true;
                        }
                        l = l + 1;
                    }
                    proof {
                        assert forall|a: int, b: int| 0 <= a < li + 1 implies !#[trigger] double_at(self@, a, b) by {
                            if a == li && !(0 <= b < layers@.len()) {
                                assert(layer_at(self@, a, b) is None);
                            }
                        }
                    }
                },
                None => {},
            }
            li = li + 1;
        }
        proof {
            assert forall|a: int, b: int| !#[trigger] double_at(self@, a, b) by {
                if !(0 <= a < n) {
                    assert(layer_at(self@, a, b) is None);
                }
            }
        }
        false
    }

    /// The first source of a color in row-major order.
    fn first_source(&self, color: Color) -> (r: Option<usize>)
        requires
            self.wf(),
        ensures
            r is Some ==> r.unwrap() < self@.len() && is_first_source(self@, r.unwrap() as int, color),
            r is None ==> forall|li: int| !#[trigger] is_source(self@, li, color),
    {
        let n = self.get_area();
        let mut li: usize = 0;
        while li < n
            invariant
                self.wf(),
                n == self@.len(),
                li <= n,
                forall|j: int| 0 <= j < li ==> !#[trigger] is_source(self@, j, color),
            decreases n - li,
        {
            match self.get_at_linear(li) {
                Some(cell) => {
                    if cell.source() == Some(color) {
                        return Some(li);
                    }
                },
                None => {},
            }
            li = li + 1;
        }
        None
    }

    /// Whether some source of a color cannot be reached from its first source.
    fn check_color_split(&self, color: Color) -> (r: bool)
        requires
            self.game_wf(),
        ensures
            r == color_split(self.spec_size(), self@, color),
    {
        let ghost size = self.spec_size();
        let ghost sk = skeleton(self@);
        match self.first_source(color) {
            None => {
                false
            },
            Some(f) => {
                let seeds = vec![(f, 0usize)];
                proof {
                    assert(seeds@[0] == (f, 0usize));
                }
                let marks = self.reach_from(&seeds);
                proof {
                    assert(seeds@.len() == 1);
                    assert forall|k: (int, int)| #[trigger] seed_set(seeds@).contains(k) <==> set![(f as int, 0int)].contains(k) by {
                        if k == (f as int, 0int) {
                            assert(seeds@[0].0 as int == k.0 && seeds@[0].1 as int == k.1);
                        }
                    }
                    assert(seed_set(seeds@) =~= set![(f as int, 0int)]);
                    assert forall|g: int| #[trigger] is_first_source(self@, g, color) implies g == f by {
                        if g < f {
                            assert(!is_source(self@, g, color));
                        }
                        if f < g {
                            assert(!is_source(self@, f as int, color));
                        }
                    }
                }
                let n = self.get_area();
                let mut li: usize = 0;
                while li < n
                    invariant
                        self.wf(),
                        n == self@.len(),
                        li <= n,
                        size == self.spec_size(),
                        sk == skeleton(self@),
                        f < n,
                        is_first_source(self@, f as int, color),
                        forall|g: int| #[trigger] is_first_source(self@, g, color) ==> g == f,
                        marks@.len() == n,
                        forall|a: int, b: int|
                            #![trigger vis(marks@, a, b)]
                            0 <= a < n && 0 <= b < 2 ==> (vis(marks@, a, b) <==> (layer_at(self@, a, b) is Some
                                && reachable(size, sk, set![(f as int, 0int)], (a, b)))),
                        forall|j: int|
                            0 <= j < li && #[trigger] is_source(self@, j, color) ==> reachable(
                                size,
                                sk,
                                set![(f as int, 0int)],
                                (j, 0),
                            ),
                    decreases n - li,
                {
                    match self.get_at_linear(li) {
                        Some(cell) => {
                            if cell.source() == Some(color) && !marks[li].0 {
                                proof {
                                    assert(vis(marks@, li as int, 0) == marks@[li as int].0);
                                    assert(is_source(self@, li as int, color));
                                }
                                return true;
                            }
                            proof {
                                assert(vis(marks@, li as int, 0) == marks@[li as int].0);
                            }
                        },
                        None => {},
                    }
                    li = li + 1;
                }
                proof {
                    assert forall|g: int, j: int|
                        is_first_source(self@, g, color) && is_source(self@, j, color) implies reachable(
                        size,
                        skeleton(self@),
                        set![(g, 0)],
                        (j, 0),
                    ) by {}
                }
                false
            },
        }
    }

    /// Whether some color has sources in parts of the grid that do not connect.
    fn check_duplicate(&self) -> (r: bool)
        requires
            self.game_wf(),
        ensures
            r == duplicate_section(self.spec_size(), self@),
    {
        let colors = Color::all();
        let mut ci: usize = 0;
        while ci < 6
            invariant
                self.game_wf(),
                ci <= 6,
                colors@ == seq![Color::Red, Color::Orange, Color::Yellow, Color::Green, Color::Blue, Color::Purple],
                forall|k: int| 0 <= k < ci ==> !#[trigger] color_split(self.spec_size(), self@, colors@[k]),
            decreases 6 - ci,
        {
            if self.check_color_split(colors[ci]) {
                return true;
            }
            ci = ci + 1;
        }
        proof {
            assert forall|c: Color| !#[trigger] color_split(self.spec_size(), self@, c) by {
                let k: int = match c {
                    Color::Red => 0,
                    Color::Orange => 1,
                    Color::Yellow => 2,
                    Color::Green => 3,
                    Color::Blue => 4,
                    Color::Purple => 5,
                };
                assert(colors@[k] == c);
            }
        }
        false
    }

    /// How the grid stands: connections first, then empty fills, then double
    /// fills, then colors split into parts that do not connect.
    pub fn is_solved(&self) -> (r: GridSolveState)
        requires
            self.game_wf(),
        ensures
            r == solve_state(self.spec_size(), self@),
    {
        if !self.check_connected() {
            return GridSolveState::NotAllConnected;
        }
        if !self.check_filled() {
            return GridSolveState::NotAllFilled;
        }
        if self.check_double() {
            return GridSolveState::DoubleFilled;
        }
        if self.check_duplicate() {
            return GridSolveState::DuplicateColorSection;
        }
        GridSolveState::Solved
    }

    /// Whether the cells at two distinct positions may trade places.
    pub fn can_swap(&self, a: GridIndex, b: GridIndex) -> (r: bool)
        requires
            self.wf(),
        ensures
            r == can_swap_at(*self, a, b),
    {
        if a == b {
            return false;
        }
        match self.get(a) {
            Some(cell_a) => match self.get(b) {
                Some(cell_b) => Cell::can_swap(cell_a, cell_b),
                None => false,
            },
            None => false,
        }
    }

    /// Swaps two cells when they may trade places: each is first turned by the
    /// rotation its fill calls for. Fills are left as they were.
    pub fn swap_with_rotation(&mut self, a: GridIndex, b: GridIndex) -> (r: Option<SwapRecord>)
        requires
            old(self).game_wf(),
        ensures
            final(self).game_wf(),
            final(self).spec_size() == old(self).spec_size(),
            r is Some <==> can_swap_at(*old(self), a, b),
            r is Some ==> r.unwrap() == swap_record_of(*old(self), a, b) && final(self)@ == swap_result(
                *old(self),
                a,
                b,
            ),
            r is None ==> *final(self) == *old(self),
    {
        if !self.can_swap(a, b) {
            return None;
        }
        let size = self.size();
        let la = get_linear_index(size, a).unwrap();
        let lb = get_linear_index(size, b).unwrap();
        let mut cell_a = self.get_at_linear(la).unwrap();
        let mut cell_b = self.get_at_linear(lb).unwrap();
        let a_rotation = cell_a.rotate_by_fill();
        let b_rotation = cell_b.rotate_by_fill();
        proof {
            lemma_cell_rotate_wf(self@[la as int].unwrap(), a_rotation);
            lemma_cell_rotate_wf(self@[lb as int].unwrap(), b_rotation);
        }
        self.set_at_linear(la, Some(cell_b));
        self.set_at_linear(lb, Some(cell_a));
        Some(SwapRecord { a, b, a_rotation, b_rotation })
    }

    /// Undoes a swap: the two cells trade places back and each is turned by the
    /// inverse of the rotation it received. Fills are left as they were.
    pub fn undo_swap(&mut self, record: SwapRecord)
        requires
            old(self).game_wf(),
            old(self).at(record.a) is Some,
            old(self).at(record.b) is Some,
        ensures
            final(self).game_wf(),
            final(self).spec_size() == old(self).spec_size(),
            final(self)@ == undo_result(*old(self), record),
    {
        let size = self.size();
        proof {
            lemma_index_of_lin(size, record.a);
            lemma_index_of_lin(size, record.b);
        }
        self.swap(record.a, record.b);
        let la = get_linear_index(size, record.a).unwrap();
        let lb = get_linear_index(size, record.b).unwrap();
        let mut cell_a = self.get_at_linear(la).unwrap();
        proof {
            lemma_cell_rotate_wf(cell_a, record.a_rotation.spec_inverse());
        }
        cell_a.rotate(record.a_rotation.inverse());
        self.set_at_linear(la, Some(cell_a));
        let mut cell_b = self.get_at_linear(lb).unwrap();
        proof {
            lemma_cell_rotate_wf(cell_b, record.b_rotation.spec_inverse());
        }
        cell_b.rotate(record.b_rotation.inverse());
        self.set_at_linear(lb, Some(cell_b));
    }

    /// The play form of a static grid, filled.
    pub fn from_puzzle_grid(puzzle_grid: Grid<PuzzleCell>) -> (r: Grid<Cell>)
        requires
            puzzle_grid.wf(),
        ensures
            r.game_wf(),
            r.spec_size() == puzzle_grid.spec_size(),
            skeleton(r@) == skeleton(play_cells(puzzle_grid@)),
            is_filled(r.spec_size(), r@),
    {
        let size = puzzle_grid.size();
        let mut grid: Grid<Cell> = Grid::with_size(size);
        let n = size.width * size.height;
        let mut li: usize = 0;
        while li < n
            invariant
                puzzle_grid.wf(),
                size == puzzle_grid.spec_size(),
                n == puzzle_grid@.len(),
                grid.wf(),
                grid.spec_size() == size,
                grid@.len() == n,
                li <= n,
                forall|j: int| 0 <= j < li ==> #[trigger] grid@[j] == play_cells(puzzle_grid@)[j],
                forall|j: int| li <= j < n ==> (#[trigger] grid@[j]) is None,
            decreases n - li,
        {
            match puzzle_grid.get_at_linear(li) {
                Some(p) => {
                    let cell = Cell::new(p);
                    grid.set_at_linear(li, Some(cell));
                },
                None => {},
            }
            li = li + 1;
        }
        proof {
            assert(grid@ =~= play_cells(puzzle_grid@));
            assert forall|j: int| 0 <= j < grid@.len() && (#[trigger] grid@[j]) is Some implies grid@[j].unwrap().wf() by {
                let p = puzzle_grid@[j].unwrap();
                match p {
                    PuzzleCell::Intersection { connections } => {
                        broadcast use vstd::array::group_array_axioms;

                        let c = Cell::spec_new(p);
                        ColorSet::lemma_nothing();
                        if let crate::cell::CellData::Intersection { layers } = c.data {
                            assert forall|d: Direction| !(#[trigger] layers@[0].connections.at(d) && layers@[1].connections.at(d)) by {}
                        }
                    },
                    PuzzleCell::Source { source, .. } => {
                        ColorSet::lemma_singleton(source);
                    },
                    PuzzleCell::Normal { .. } => {
                        ColorSet::lemma_nothing();
                    },
                }
            }
        }
        grid.fill();
        grid
    }

    /// A layer of the grid.
    pub fn get_layer(&self, index: GameGridIndex) -> (r: Option<CellLayer>)
        requires
            self.wf(),
        ensures
            r == (if self.spec_size().spec_contains(index.grid_index) {
                layer_at(self@, lin(self.spec_size(), index.grid_index), index.layer_index as int)
            } else {
                None
            }),
    {
        match get_linear_index(self.size(), index.grid_index) {
            Some(li) => match self.get_at_linear(li) {
                Some(cell) => match cell.get_layer(index.layer_index) {
                    Some(layer) => Some(*layer),
                    None => None,
                },
                None => None,
            },
            None => None,
        }
    }

    /// Every layer of the grid, position by position in row-major order.
    pub fn iter_layers(&self) -> (r: Vec<(GameGridIndex, CellLayer)>)
        requires
            self.wf(),
        ensures
            forall|k: int|
                0 <= k < r@.len() ==> self.spec_size().spec_contains((#[trigger] r@[k]).0.grid_index) && layer_at(
                    self@,
                    lin(self.spec_size(), r@[k].0.grid_index),
                    r@[k].0.layer_index as int,
                ) == Some(r@[k].1),
    {
        let entries = self.iter();
        let mut r: Vec<(GameGridIndex, CellLayer)> = Vec::new();
        let mut i: usize = 0;
        while i < entries.len()
            invariant
                self.wf(),
                i <= entries@.len(),
                forall|k: int| 0 <= k < entries@.len() ==> self.at((#[trigger] entries@[k]).0) == Some(entries@[k].1),
                forall|k: int|
                    0 <= k < r@.len() ==> self.spec_size().spec_contains((#[trigger] r@[k]).0.grid_index) && layer_at(
                        self@,
                        lin(self.spec_size(), r@[k].0.grid_index),
                        r@[k].0.layer_index as int,
                    ) == Some(r@[k].1),
            decreases entries@.len() - i,
        {
            let (grid_index, cell) = entries[i];
            assert(self.at(grid_index) == Some(cell));
            proof {
                if self.spec_size().spec_contains(grid_index) {
                    lemma_lin_bounds(self.spec_size(), grid_index);
                }
            }
            let layers = cell.iter_layers();
            let mut l: usize = 0;
            while l < layers.len()
                invariant
                    self.wf(),
                    self.at(grid_index) == Some(cell),
                    layers@.len() == cell.layer_count(),
                    forall|k: int| 0 <= k < layers@.len() ==> cell.layer(k) == Some(#[trigger] layers@[k]),
                    l <= layers@.len(),
                    forall|k: int|
                        0 <= k < r@.len() ==> self.spec_size().spec_contains((#[trigger] r@[k]).0.grid_index)
                            && layer_at(self@, lin(self.spec_size(), r@[k].0.grid_index), r@[k].0.layer_index as int)
                            == Some(r@[k].1),
                decreases layers@.len() - l,
            {
                let ghost old_r = r@;
                r.push((GameGridIndex { grid_index, layer_index: l }, layers[l]));
                proof {
                    lemma_lin_bounds(self.spec_size(), grid_index);
                    assert forall|k: int|
                        0 <= k < r@.len() implies self.spec_size().spec_contains((#[trigger] r@[k]).0.grid_index)
                        && layer_at(self@, lin(self.spec_size(), r@[k].0.grid_index), r@[k].0.layer_index as int)
                        == Some(r@[k].1) by {
                        if k < old_r.len() {
                            assert(r@[k] == old_r[k]);
                        }
                    }
                }
                l = l + 1;
            }
            i = i + 1;
        }
        r
    }

    /// The layers of one position, or `None` where there is no cell.
    pub fn iter_layers_at(&self, index: GridIndex) -> (r: Option<Vec<(GameGridIndex, CellLayer)>>)
        requires
            self.wf(),
        ensures
            r is Some <==> self.at(index) is Some,
            r is Some ==> r.unwrap()@.len() == self.at(index).unwrap().layer_count() && forall|k: int|
                0 <= k < r.unwrap()@.len() ==> (#[trigger] r.unwrap()@[k]).0 == (GameGridIndex {
                    grid_index: index,
                    layer_index: k as usize,
                }) && self.at(index).unwrap().layer(k) == Some(r.unwrap()@[k].1),
    {
        match self.get(index) {
            Some(cell) => {
                let layers = cell.iter_layers();
                let mut r: Vec<(GameGridIndex, CellLayer)> = Vec::new();
                let mut l: usize = 0;
                while l < layers.len()
                    invariant
                        layers@.len() == cell.layer_count(),
                        forall|k: int| 0 <= k < layers@.len() ==> cell.layer(k) == Some(#[trigger] layers@[k]),
                        l <= layers@.len(),
                        r@.len() == l,
                        forall|k: int|
                            0 <= k < r@.len() ==> (#[trigger] r@[k]).0 == (GameGridIndex {
                                grid_index: index,
                                layer_index: k as usize,
                            }) && cell.layer(k) == Some(r@[k].1),
                    decreases layers@.len() - l,
                {
                    r.push((GameGridIndex { grid_index: index, layer_index: l }, layers[l]));
                    l = l + 1;
                }
                Some(r)
            },
            None => None,
        }
    }

    /// The layers a layer connects to, one for each of its directions that meets
    /// a neighbor opening back, in the order east, north, west, south; `None`
    /// where the layer does not exist.
    pub fn iter_connected_layers(&self, index: GameGridIndex) -> (r: Option<Vec<(GameGridIndex, CellLayer)>>)
        requires
            self.wf(),
        ensures
            r is Some <==> self.get_layer_spec(index) is Some,
            r is Some ==> forall|k: int|
                0 <= k < r.unwrap()@.len() ==> exists|d: Direction|
                    step(
                        self.spec_size(),
                        skeleton(self@),
                        lin(self.spec_size(), index.grid_index),
                        index.layer_index as int,
                        d,
                    ) == Some(
                        (
                            lin(self.spec_size(), (#[trigger] r.unwrap()@[k]).0.grid_index),
                            r.unwrap()@[k].0.layer_index as int,
                        ),
                    ),
    {
        let size = self.size();
        let li = match get_linear_index(size, index.grid_index) {
            Some(li) => li,
            None => {
                return None;
            },
        };
        if self.get_layer(index).is_none() {
            return None;
        }
        let l = index.layer_index;
        let all = Direction::all();
        let mut r: Vec<(GameGridIndex, CellLayer)> = Vec::new();
        let mut i: usize = 0;
        while i < 4
            invariant
                self.wf(),
                size == self.spec_size(),
                li == lin(size, index.grid_index),
                li < self@.len(),
                l == index.layer_index,
                i <= 4,
                forall|k: int|
                    0 <= k < r@.len() ==> exists|d: Direction|
                        step(size, skeleton(self@), li as int, l as int, d) == Some(
                            (lin(size, (#[trigger] r@[k]).0.grid_index), r@[k].0.layer_index as int),
                        ),
            decreases 4 - i,
        {
            let d = all[i];
            match self.step_exec(li, l, d) {
                Some((ni, nl)) => {
                    proof {
                        lemma_step_valid(size, skeleton(self@), li as int, l as int, d);
                        lemma_skeleton_cells(self@);
                        lemma_lin_index_of(size, ni as int);
                    }
                    let grid_index = get_index_from_linear_index(size, ni);
                    match self.get_at_linear(ni) {
                        Some(cell) => match cell.get_layer(nl) {
                            Some(layer) => {
                                let ghost old_r = r@;
                                r.push((GameGridIndex { grid_index, layer_index: nl }, *layer));
                                proof {
                                    assert forall|k: int|
                                        0 <= k < r@.len() implies exists|dd: Direction|
                                        step(size, skeleton(self@), li as int, l as int, dd) == Some(
                                            (lin(size, (#[trigger] r@[k]).0.grid_index), r@[k].0.layer_index as int),
                                        ) by {
                                        if k < old_r.len() {
                                            assert(r@[k] == old_r[k]);
                                        } else {
                                            assert(step(size, skeleton(self@), li as int, l as int, d) == Some(
                                                (lin(size, r@[k].0.grid_index), r@[k].0.layer_index as int),
                                            ));
                                        }
                                    }
                                }
                            },
                            None => {},
                        },
                        None => {},
                    }
                },
                None => {},
            }
            i = i + 1;
        }
        proof {
            assert forall|k: int| 0 <= k < r@.len() implies exists|d: Direction|
                step(
                    self.spec_size(),
                    skeleton(self@),
                    lin(self.spec_size(), index.grid_index),
                    index.layer_index as int,
                    d,
                ) == Some((lin(self.spec_size(), (#[trigger] r@[k]).0.grid_index), r@[k].0.layer_index as int)) by {
                let d = choose|d: Direction|
                    step(size, skeleton(self@), li as int, l as int, d) == Some(
                        (lin(size, r@[k].0.grid_index), r@[k].0.layer_index as int),
                    );
                assert(step(
                    self.spec_size(),
                    skeleton(self@),
                    lin(self.spec_size(), index.grid_index),
                    index.layer_index as int,
                    d,
                ) == Some((lin(self.spec_size(), r@[k].0.grid_index), r@[k].0.layer_index as int)));
            }
        }
        Some(r)
    }

    /// A layer of the grid, as a spec.
    pub open spec fn get_layer_spec(&self, index: GameGridIndex) -> Option<CellLayer> {
        if self.spec_size().spec_contains(index.grid_index) {
            layer_at(self@, lin(self.spec_size(), index.grid_index), index.layer_index as int)
        } else {
            None
        }
    }

    /// Every layer reachable from a layer by following connections, the layer
    /// itself included; `None` where the layer does not exist.
    pub fn all_connected(&self, index: GameGridIndex) -> (r: Option<Vec<GameGridIndex>>)
        requires
            self.wf(),
        ensures
            r is Some <==> self.get_layer_spec(index) is Some,
            r is Some ==> forall|g: GameGridIndex|
                #![trigger r.unwrap()@.contains(g)]
                self.spec_size().spec_contains(g.grid_index) ==> (r.unwrap()@.contains(g) <==> (layer_at(
                    self@,
                    lin(self.spec_size(), g.grid_index),
                    g.layer_index as int,
                ) is Some && reachable(
                    self.spec_size(),
                    skeleton(self@),
                    set![(lin(self.spec_size(), index.grid_index), index.layer_index as int)],
                    (lin(self.spec_size(), g.grid_index), g.layer_index as int),
                ))),
    {
        let size = self.size();
        let li = match get_linear_index(size, index.grid_index) {
            Some(li) => li,
            None => {
                return None;
            },
        };
        if self.get_layer(index).is_none() {
            return None;
        }
        let l = index.layer_index;
        let seeds = vec![(li, l)];
        proof {
            assert(seeds@[0] == (li, l));
            assert forall|k: (int, int)| #[trigger] seed_set(seeds@).contains(k) <==> set![(li as int, l as int)].contains(k) by {
                if k == (li as int, l as int) {
                    assert(seeds@[0].0 as int == k.0 && seeds@[0].1 as int == k.1);
                }
            }
            assert(seed_set(seeds@) =~= set![(li as int, l as int)]);
        }
        let marks = self.reach_from(&seeds);
        let n = self.get_area();
        let mut r: Vec<GameGridIndex> = Vec::new();
        let mut j: usize = 0;
        while j < n
            invariant
                self.wf(),
                size == self.spec_size(),
                n == self@.len(),
                marks@.len() == n,
                j <= n,
                forall|a: int, b: int|
                    #![trigger vis(marks@, a, b)]
                    0 <= a < n && 0 <= b < 2 ==> (vis(marks@, a, b) <==> (layer_at(self@, a, b) is Some && reachable(
                        size,
                        skeleton(self@),
                        set![(li as int, l as int)],
                        (a, b),
                    ))),
                forall|k: int|
                    0 <= k < r@.len() ==> size.spec_contains((#[trigger] r@[k]).grid_index) && lin(size, r@[k].grid_index)
                        < j && r@[k].layer_index < 2 && vis(marks@, lin(size, r@[k].grid_index), r@[k].layer_index as int),
                forall|g: GameGridIndex|
                    size.spec_contains(g.grid_index) && lin(size, g.grid_index) < j && g.layer_index < 2 && vis(
                        marks@,
                        lin(size, g.grid_index),
                        g.layer_index as int,
                    ) ==> #[trigger] r@.contains(g),
            decreases n - j,
        {
            let grid_index = get_index_from_linear_index(size, j);
            proof {
                lemma_lin_index_of(size, j as int);
            }
            let m = marks[j];
            let ghost r0 = r@;
            if m.0 {
                r.push(GameGridIndex { grid_index, layer_index: 0 });
            }
            let ghost r1 = r@;
            if m.1 {
                r.push(GameGridIndex { grid_index, layer_index: 1 });
            }
            proof {
                assert forall|k: int|
                    0 <= k < r@.len() implies size.spec_contains((#[trigger] r@[k]).grid_index) && lin(
                    size,
                    r@[k].grid_index,
                ) < j + 1 && r@[k].layer_index < 2 && vis(marks@, lin(size, r@[k].grid_index), r@[k].layer_index as int) by {
                    if k < r0.len() {
                        assert(r@[k] == r0[k]);
                    } else if k < r1.len() {
                        assert(r@[k] == r1[k]);
                    }
                }
                assert forall|g: GameGridIndex|
                    size.spec_contains(g.grid_index) && lin(size, g.grid_index) < j + 1 && g.layer_index < 2 && vis(
                        marks@,
                        lin(size, g.grid_index),
                        g.layer_index as int,
                    ) implies #[trigger] r@.contains(g) by {
                    if lin(size, g.grid_index) < j {
                        assert(r0.contains(g));
                        let k = choose|k: int| 0 <= k < r0.len() && r0[k] == g;
                        assert(r1[k] == g);
                        assert(r@[k] == g);
                    } else {
                        lemma_index_of_lin(size, g.grid_index);
                        if g.layer_index == 0 {
                            assert(r1[r0.len() as int] == g);
                            assert(r@[r0.len() as int] == g);
                        } else {
                            assert(r@[r1.len() as int] == g);
                        }
                    }
                }
            }
            j = j + 1;
        }
        proof {
            assert forall|g: GameGridIndex|
                #![trigger r@.contains(g)]
                size.spec_contains(g.grid_index) implies (r@.contains(g) <==> (layer_at(
                    self@,
                    lin(size, g.grid_index),
                    g.layer_index as int,
                ) is Some && reachable(
                    size,
                    skeleton(self@),
                    set![(li as int, l as int)],
                    (lin(size, g.grid_index), g.layer_index as int),
                ))) by {
                lemma_lin_bounds(size, g.grid_index);
                if r@.contains(g) {
                    let k = choose|k: int| 0 <= k < r@.len() && r@[k] == g;
                } else if layer_at(self@, lin(size, g.grid_index), g.layer_index as int) is Some {
                    assert(g.layer_index < 2);
                }
            }
        }
        Some(r)
    }

    /// The number of positions of the grid.
    fn get_area(&self) -> (r: usize)
        requires
            self.wf(),
        ensures
            r == self@.len(),
    {
        self.width() * self.height()
    }
}

/// With every visited layer closed and every seed visited, each layer of a
/// path from a seed is visited.
proof fn lemma_path_visited(
    size: GridSize,
    sk: Seq<Option<Cell>>,
    seeds: Seq<(usize, usize)>,
    v: Seq<(bool, bool)>,
    path: Seq<(int, int)>,
    i: int,
)
    requires
        v.len() == sk.len(),
        sk.len() == size.area(),
        forall|j: int| 0 <= j < seeds.len() ==> (#[trigger] seeds[j]).0 < v.len() && seeds[j].1 < 2,
        forall|j: int| 0 <= j < seeds.len() ==> vis(v, (#[trigger] seeds[j]).0 as int, seeds[j].1 as int),
        forall|li: int, l: int|
            #![trigger vis(v, li, l)]
            0 <= li < v.len() && 0 <= l < 2 && vis(v, li, l) ==> closed(size, sk, v, li, l),
        is_path(size, sk, path),
        seed_set(seeds).contains(path[0]),
        0 <= i < path.len(),
    ensures
        0 <= path[i].0 < v.len() && 0 <= path[i].1 < 2 && vis(v, path[i].0, path[i].1),
    decreases i,
{
    if i == 0 {
        let k = path[0];
        let j = choose|j: int| 0 <= j < seeds.len() && #[trigger] seeds[j].0 as int == k.0 && seeds[j].1 as int == k.1;
        assert(vis(v, seeds[j].0 as int, seeds[j].1 as int));
    } else {
        lemma_path_visited(size, sk, seeds, v, path, i - 1);
        let p = path[i - 1];
        assert(linked(size, sk, path[i - 1], path[i]));
        assert(closed(size, sk, v, p.0, p.1));
        if step(size, sk, p.0, p.1, Direction::E) == Some(path[i]) {
            lemma_step_valid(size, sk, p.0, p.1, Direction::E);
        } else if step(size, sk, p.0, p.1, Direction::N) == Some(path[i]) {
            lemma_step_valid(size, sk, p.0, p.1, Direction::N);
        } else if step(size, sk, p.0, p.1, Direction::W) == Some(path[i]) {
            lemma_step_valid(size, sk, p.0, p.1, Direction::W);
        } else {
            lemma_step_valid(size, sk, p.0, p.1, Direction::S);
        }
    }
}

} // verus!
