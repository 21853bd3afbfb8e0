//! Wiring the regions of a generated layout and breaking up its loops.

use vstd::prelude::*;

use crate::cell::{LayerConnection, PuzzleCell};
use crate::color::Color;
use crate::direction::Direction;
use crate::direction_map::{DirectionMap, DirectionSet};
use crate::game_grid::{count_unvisited, lemma_count_unvisited_mark, mark, vis};
use crate::generator::GeneratorSettings;
use crate::grid::{
    get_index_from_linear_index, get_linear_index, index_of, lemma_at_update, lemma_index_of_lin, lemma_lin_bounds, lin,
    Grid, GridIndex,
};
use crate::random::{chance, random_below};
use crate::solutions::{GeneratorCell, GeneratorFailure};

verus! {

/// A cell while its connections are wired: one region, or two crossing regions.
#[derive(Debug, Clone, Copy)]
pub enum ConnectionCell {
    Single(DirectionSet, Color),
    Intersection(DirectionMap<LayerConnection>, Color, Color),
}

/// One layer of a cell being wired: `None` for a single-region cell.
#[derive(Debug, Clone, Copy, PartialEq, Eq, Structural)]
pub struct CxnGridIndex {
    pub grid_index: GridIndex,
    pub layer_index: Option<usize>,
}

/// Whether a cell is an intersection, with its colors; connections aside.
pub open spec fn cx_kind(c: Option<ConnectionCell>) -> Option<(bool, Color, Color)> {
    match c {
        Some(ConnectionCell::Single(_, x)) => Some((false, x, x)),
        Some(ConnectionCell::Intersection(_, a, b)) => Some((true, a, b)),
        None => None,
    }
}

/// The directions a cell opens in, over all its layers.
pub open spec fn cx_dirs(c: Option<ConnectionCell>) -> DirectionSet {
    match c {
        Some(ConnectionCell::Single(ds, _)) => ds,
        Some(ConnectionCell::Intersection(m, _, _)) => m.spec_map_connected(),
        None => DirectionMap { e: false, n: false, w: false, s: false },
    }
}

/// Both grids have the same cells, connections aside.
pub open spec fn same_shape(a: Grid<ConnectionCell>, b: Grid<ConnectionCell>) -> bool {
    &&& a.wf()
    &&& b.wf()
    &&& a.spec_size() == b.spec_size()
    &&& forall|i: GridIndex| #[trigger] cx_kind(b.at(i)) == cx_kind(a.at(i))
}

/// Every direction a cell of `b` opens in, it opened in in `a`.
pub open spec fn dirs_shrink(a: Grid<ConnectionCell>, b: Grid<ConnectionCell>) -> bool {
    forall|i: GridIndex, d: Direction| #[trigger] cx_dirs(b.at(i)).at(d) ==> cx_dirs(a.at(i)).at(d)
}

/// The intersection layer a layer index stands for.
fn layer_connection(layer: usize) -> (r: LayerConnection)
    ensures
        layer == 0 ==> r == LayerConnection::Layer0,
        layer != 0 ==> r == LayerConnection::Layer1,
{
    if layer == 0 {
        LayerConnection::Layer0
    } else {
        LayerConnection::Layer1
    }
}

/// Opens a layer in a direction.
fn connect_direction(grid: &mut Grid<ConnectionCell>, a: CxnGridIndex, dir: Direction)
    requires
        old(grid).wf(),
    ensures
        same_shape(*old(grid), *final(grid)),
{
    let ghost g0 = *grid;
    match grid.get(a.grid_index) {
        Some(cell) => {
            let updated = match *cell {
                ConnectionCell::Single(connections, color) => {
                    let mut c = connections;
                    c.insert(dir);
                    ConnectionCell::Single(c, color)
                },
                ConnectionCell::Intersection(connections, c0, c1) => {
                    let mut c = connections;
                    let layer = match a.layer_index {
                        Some(l) => l,
                        None => 0,
                    };
                    c.set(dir, layer_connection(layer));
                    ConnectionCell::Intersection(c, c0, c1)
                },
            };
            let _ = grid.insert(a.grid_index, updated);
            proof {
                lemma_at_update(g0, *grid, a.grid_index, Some(updated));
            }
        },
        None => {},
    }
}

/// Closes a layer in a direction.
fn disconnect_direction(grid: &mut Grid<ConnectionCell>, a: CxnGridIndex, dir: Direction)
    requires
        old(grid).wf(),
    ensures
        same_shape(*old(grid), *final(grid)),
        dirs_shrink(*old(grid), *final(grid)),
        old(grid).at(a.grid_index) matches Some(ConnectionCell::Single(_, _)) ==> !cx_dirs(final(grid).at(a.grid_index)).at(dir),
{
    let ghost g0 = *grid;
    match grid.get(a.grid_index) {
        Some(cell) => {
            let updated = disconnected_cell(*cell, a.layer_index, dir);
            let _ = grid.insert(a.grid_index, updated);
            proof {
                lemma_at_update(g0, *grid, a.grid_index, Some(updated));
            }
        },
        None => {},
    }
}

/// A cell with one layer closed in a direction: for an intersection, the
/// direction closes only if it belongs to that layer.
fn disconnected_cell(cell: ConnectionCell, layer_index: Option<usize>, dir: Direction) -> (r: ConnectionCell)
    ensures
        cx_kind(Some(r)) == cx_kind(Some(cell)),
        forall|d: Direction| #[trigger] cx_dirs(Some(r)).at(d) ==> cx_dirs(Some(cell)).at(d),
        cell matches ConnectionCell::Single(_, _) ==> !cx_dirs(Some(r)).at(dir),
{
    match cell {
        ConnectionCell::Single(connections, color) => {
            let mut c = connections;
            c.remove(dir);
            ConnectionCell::Single(c, color)
        },
        ConnectionCell::Intersection(connections, c0, c1) => {
            let mut c = connections;
            let layer = match layer_index {
                Some(l) => l,
                None => 0,
            };
            if *c.get(dir) == layer_connection(layer) {
                c.set(dir, LayerConnection::Disconnected);
            }
            assert(forall|o: Direction| #[trigger] c.at(o) == connections.at(o) || c.at(o) == LayerConnection::Disconnected);
            let r = ConnectionCell::Intersection(c, c0, c1);
            proof {
                assert forall|d: Direction| #[trigger] cx_dirs(Some(r)).at(d) implies cx_dirs(Some(cell)).at(d) by {
                    assert(c.at(d) == connections.at(d) || c.at(d) == LayerConnection::Disconnected);
                    match d {
                        Direction::E => {},
                        Direction::N => {},
                        Direction::W => {},
                        Direction::S => {},
                    }
                }
            }
            r
        },
    }
}

/// Connects two neighboring layers both ways.
fn connect(grid: &mut Grid<ConnectionCell>, a: CxnGridIndex, b: CxnGridIndex, a_to_b: Direction)
    requires
        old(grid).wf(),
    ensures
        same_shape(*old(grid), *final(grid)),
{
    connect_direction(grid, a, a_to_b);
    connect_direction(grid, b, a_to_b.inverse());
}

/// Disconnects two neighboring layers both ways.
fn disconnect(grid: &mut Grid<ConnectionCell>, a: CxnGridIndex, b: CxnGridIndex, a_to_b: Direction)
    requires
        old(grid).wf(),
    ensures
        same_shape(*old(grid), *final(grid)),
        dirs_shrink(*old(grid), *final(grid)),
{
    disconnect_direction(grid, a, a_to_b);
    disconnect_direction(grid, b, a_to_b.inverse());
}

/// Every layer of a region's color, in row-major order.
fn get_all_indices(grid: &Grid<ConnectionCell>, match_color: Color) -> (r: Vec<CxnGridIndex>)
    requires
        grid.wf(),
    ensures
        forall|k: int| 0 <= k < r@.len() ==> grid.spec_size().spec_contains((#[trigger] r@[k]).grid_index),
        forall|k: int| 0 <= k < r@.len() ==> ((#[trigger] r@[k]).layer_index matches Some(l) ==> l < 2),
        forall|k: int| 0 <= k < r@.len() ==> grid.at((#[trigger] r@[k]).grid_index) is Some,
{
    let entries = grid.iter();
    let mut r: Vec<CxnGridIndex> = Vec::new();
    let mut i: usize = 0;
    while i < entries.len()
        invariant
            grid.wf(),
            i <= entries@.len(),
            forall|k: int| 0 <= k < entries@.len() ==> grid.at((#[trigger] entries@[k]).0) == Some(entries@[k].1),
            forall|k: int| 0 <= k < r@.len() ==> grid.spec_size().spec_contains((#[trigger] r@[k]).grid_index),
            forall|k: int| 0 <= k < r@.len() ==> ((#[trigger] r@[k]).layer_index matches Some(l) ==> l < 2),
            forall|k: int| 0 <= k < r@.len() ==> grid.at((#[trigger] r@[k]).grid_index) is Some,
        decreases entries@.len() - i,
    {
        let (grid_index, cell) = entries[i];
        assert(grid.at(grid_index) is Some);
        match cell {
            ConnectionCell::Single(_, color) => {
                if color == match_color {
                    r.push(CxnGridIndex { grid_index, layer_index: None });
                }
            },
            ConnectionCell::Intersection(_, c0, c1) => {
                if c0 == match_color {
                    r.push(CxnGridIndex { grid_index, layer_index: Some(0) });
                }
                if c1 == match_color {
                    r.push(CxnGridIndex { grid_index, layer_index: Some(1) });
                }
            },
        }
        i = i + 1;
    }
    r
}

/// The directions a layer opens in.
fn get_layer(grid: &Grid<ConnectionCell>, index: CxnGridIndex) -> (r: DirectionSet)
    requires
        grid.wf(),
    ensures
        forall|d: Direction| #[trigger] r.at(d) ==> cx_dirs(grid.at(index.grid_index)).at(d),
{
    match grid.get(index.grid_index) {
        Some(cell) => match *cell {
            ConnectionCell::Single(cxs, _) => cxs,
            ConnectionCell::Intersection(cxs, _, _) => {
                let layer = match index.layer_index {
                    Some(1) => LayerConnection::Layer1,
                    _ => LayerConnection::Layer0,
                };
                DirectionMap {
                    e: cxs.e == layer,
                    n: cxs.n == layer,
                    w: cxs.w == layer,
                    s: cxs.s == layer,
                }
            },
        },
        None => DirectionSet::empty(),
    }
}

/// Whether a list of layers holds a layer.
fn contains_index(v: &Vec<CxnGridIndex>, x: CxnGridIndex) -> (r: bool)
    ensures
        r == v@.contains(x),
{
    let mut i: usize = 0;
    while i < v.len()
        invariant
            i <= v@.len(),
            forall|k: int| 0 <= k < i ==> v@[k] != x,
        decreases v@.len() - i,
    {
        if v[i] == x {
            return true;
        }
        i = i + 1;
    }
    false
}

/// The kind and colors a generated cell has.
pub open spec fn gen_kind(g: Option<GeneratorCell>) -> Option<(bool, Color, Color)> {
    match g {
        Some(GeneratorCell::SingleGroup(x)) => Some((false, x, x)),
        Some(GeneratorCell::Intersection(a, b)) => Some((true, a, b)),
        None => None,
    }
}

/// A kind that holds a color.
pub open spec fn cx_holds(k: Option<(bool, Color, Color)>, c: Color) -> bool {
    match k {
        Some((_, a, b)) => a == c || b == c,
        None => false,
    }
}

/// `b` is the single cell `a` turned into an intersection of its color.
pub open spec fn splitted(a: Option<(bool, Color, Color)>, b: Option<(bool, Color, Color)>) -> bool {
    match (a, b) {
        (Some((false, x, y)), Some((true, x2, y2))) => x == x2 && y == y2,
        _ => false,
    }
}

/// A wired cell comes from its generated cell, possibly split (never when `exact`).
pub open spec fn from_gen(g: Option<GeneratorCell>, k: Option<(bool, Color, Color)>, exact: bool) -> bool {
    k == gen_kind(g) || (!exact && splitted(gen_kind(g), k))
}

/// A cell of the result is a source of color `c`.
pub open spec fn is_source_of(p: Option<PuzzleCell>, c: Color) -> bool {
    match p {
        Some(PuzzleCell::Source { source, .. }) => source == c,
        _ => false,
    }
}

/// Some generated cell holds color `c`.
pub open spec fn color_occurs(gen: Grid<GeneratorCell>, c: Color) -> bool {
    exists|i: GridIndex| #[trigger] cx_holds(gen_kind(gen.at(i)), c)
}

/// Whether some cell holds a color.
fn color_present(grid: &Grid<ConnectionCell>, color: Color) -> (r: bool)
    requires
        grid.wf(),
    ensures
        r == exists|i: GridIndex| #[trigger] cx_holds(cx_kind(grid.at(i)), color),
{
    let entries = grid.iter();
    let mut k: usize = 0;
    while k < entries.len()
        invariant
            grid.wf(),
            k <= entries@.len(),
            forall|j: int| 0 <= j < entries@.len() ==> grid.at((#[trigger] entries@[j]).0) == Some(entries@[j].1),
            forall|j: int| 0 <= j < k ==> !cx_holds(cx_kind(Some((#[trigger] entries@[j]).1)), color),
        decreases entries@.len() - k,
    {
        let held = match entries[k].1 {
            ConnectionCell::Single(_, x) => x == color,
            ConnectionCell::Intersection(_, a, b) => a == color || b == color,
        };
        if held {
            assert(grid.at(entries@[k as int].0) == Some(entries@[k as int].1));
            assert(cx_holds(cx_kind(grid.at(entries@[k as int].0)), color));
            return true;
        }
        k = k + 1;
    }
    proof {
        assert forall|i: GridIndex| !#[trigger] cx_holds(cx_kind(grid.at(i)), color) by {
            if grid.at(i) is Some {
                let j = choose|j: int| 0 <= j < entries@.len() && entries@[j].0 == i;
                assert(grid.at(entries@[j].0) == Some(entries@[j].1));
            }
        }
    }
    false
}

/// The single cells of a color.
fn single_cells(grid: &Grid<ConnectionCell>, color: Color) -> (r: Vec<GridIndex>)
    requires
        grid.wf(),
    ensures
        forall|k: int| 0 <= k < r@.len() ==> cx_kind(grid.at(#[trigger] r@[k])) == Some((false, color, color)),
        forall|i: GridIndex| #[trigger] cx_kind(grid.at(i)) == Some((false, color, color)) ==> r@.contains(i),
{
    let entries = grid.iter();
    let mut r: Vec<GridIndex> = Vec::new();
    let mut k: usize = 0;
    while k < entries.len()
        invariant
            grid.wf(),
            k <= entries@.len(),
            forall|j: int| 0 <= j < entries@.len() ==> grid.at((#[trigger] entries@[j]).0) == Some(entries@[j].1),
            forall|j: int| 0 <= j < r@.len() ==> cx_kind(grid.at(#[trigger] r@[j])) == Some((false, color, color)),
            forall|j: int|
                0 <= j < k && cx_kind(Some((#[trigger] entries@[j]).1)) == Some((false, color, color)) ==> r@.contains(
                    entries@[j].0,
                ),
        decreases entries@.len() - k,
    {
        let (p, cell) = entries[k];
        assert(grid.at(entries@[k as int].0) == Some(entries@[k as int].1));
        let ghost old_r = r@;
        match cell {
            ConnectionCell::Single(_, x) => {
                if x == color {
                    r.push(p);
                    proof {
                        assert(r@[r@.len() - 1] == p);
                    }
                }
            },
            ConnectionCell::Intersection(_, _, _) => {},
        }
        proof {
            assert forall|j: int|
                0 <= j < k + 1 && cx_kind(Some((#[trigger] entries@[j]).1)) == Some((false, color, color)) implies r@.contains(
                entries@[j].0,
            ) by {
                if j < k {
                    let w = choose|w: int| 0 <= w < old_r.len() && old_r[w] == entries@[j].0;
                    assert(r@[w] == old_r[w]);
                }
            }
        }
        k = k + 1;
    }
    proof {
        assert forall|i: GridIndex| #[trigger] cx_kind(grid.at(i)) == Some((false, color, color)) implies r@.contains(i) by {
            let j = choose|j: int| 0 <= j < entries@.len() && entries@[j].0 == i;
            assert(grid.at(entries@[j].0) == Some(entries@[j].1));
        }
    }
    r
}

/// Wires the regions: every two neighboring layers of one color are connected,
/// loops are then broken up, and each color gets one source or more, placed on
/// single cells of that color. Fails when some color has no single cell left
/// to hold its source.
pub fn connect_groups(gen_grid: &Grid<GeneratorCell>, generator_settings: &GeneratorSettings) -> (r: Result<
    Grid<PuzzleCell>,
    GeneratorFailure,
>)
    requires
        gen_grid.wf(),
    ensures
        r is Ok ==> r.unwrap().wf() && r.unwrap().spec_size() == gen_grid.spec_size(),
        r is Ok ==> forall|i: GridIndex| #[trigger] r.unwrap().at(i) is Some <==> gen_grid.at(i) is Some,
        r is Ok ==> forall|i: GridIndex|
            #[trigger] gen_kind(gen_grid.at(i)) matches Some((true, _, _)) ==> r.unwrap().at(i) matches Some(
                PuzzleCell::Intersection { .. },
            ),
        r is Ok ==> forall|i: GridIndex, c: Color|
            #[trigger] is_source_of(r.unwrap().at(i), c) ==> gen_grid.at(i) == Some(GeneratorCell::SingleGroup(c)),
        r is Ok ==> forall|c: Color|
            #[trigger] color_occurs(*gen_grid, c) ==> exists|i: GridIndex| #[trigger] is_source_of(r.unwrap().at(i), c),
        r is Err ==> r == Err::<Grid<PuzzleCell>, GeneratorFailure>(GeneratorFailure::CannotAddSource),
        r is Err && generator_settings.max_intersections == 0 ==> exists|c: Color|
            #[trigger] color_occurs(*gen_grid, c) && forall|i: GridIndex|
                gen_grid.at(i) != Some(GeneratorCell::SingleGroup(c)),
{
    let size = gen_grid.size();
    let ghost exact = generator_settings.max_intersections == 0;
    let mut grid: Grid<ConnectionCell> = Grid::with_size(size);
    let mut intersections_left = generator_settings.max_intersections;
    let n = size.width * size.height;
    let mut li: usize = 0;
    while li < n
        invariant
            grid.wf(),
            gen_grid.wf(),
            grid.spec_size() == size,
            size == gen_grid.spec_size(),
            n == grid@.len(),
            li <= n,
            exact == (generator_settings.max_intersections == 0),
            exact ==> intersections_left == 0,
            forall|j: int| 0 <= j < li ==> #[trigger] cx_kind(grid@[j]) == gen_kind(gen_grid@[j]),
            forall|j: int| li <= j < n ==> (#[trigger] grid@[j]) is None,
        decreases n - li,
    {
        match gen_grid.get_at_linear(li) {
            Some(GeneratorCell::SingleGroup(color)) => {
                grid.set_at_linear(li, Some(ConnectionCell::Single(DirectionSet::empty(), color)));
            },
            Some(GeneratorCell::Intersection(color_a, color_b)) => {
                if intersections_left > 0 {
                    intersections_left = intersections_left - 1;
                }
                grid.set_at_linear(
                    li,
                    Some(
                        ConnectionCell::Intersection(
                            DirectionMap::new_with_repeat(LayerConnection::Disconnected),
                            color_a,
                            color_b,
                        ),
                    ),
                );
            },
            None => {},
        }
        li = li + 1;
    }
    proof {
        assert forall|i: GridIndex| #[trigger] from_gen(gen_grid.at(i), cx_kind(grid.at(i)), exact) by {
            if size.spec_contains(i) {
                lemma_lin_bounds(size, i);
                assert(cx_kind(grid@[lin(size, i)]) == gen_kind(gen_grid@[lin(size, i)]));
            }
        }
    }
    let ghost g1 = grid;
    let colors = Color::all();
    let mut present_colors: Vec<Color> = Vec::new();
    let mut ci: usize = 0;
    while ci < 6
        invariant
            grid.wf(),
            grid.spec_size() == size,
            g1.wf(),
            g1.spec_size() == size,
            ci <= 6,
            colors@ == seq![Color::Red, Color::Orange, Color::Yellow, Color::Green, Color::Blue, Color::Purple],
            forall|i: GridIndex| #[trigger] cx_kind(grid.at(i)) == cx_kind(g1.at(i)),
            forall|k: int| 0 <= k < present_colors@.len() ==> held(g1, #[trigger] present_colors@[k]),
            forall|k: int, i: GridIndex|
                0 <= k < ci && #[trigger] cx_holds(cx_kind(g1.at(i)), colors@[k]) ==> present_colors@.contains(colors@[k]),
        decreases 6 - ci,
    {
        let color = colors[ci];
        if color_present(&grid, color) {
            let ghost old_pc = present_colors@;
            present_colors.push(color);
            proof {
                assert(present_colors@[present_colors@.len() - 1] == color);
                assert forall|k: int| 0 <= k < present_colors@.len() implies held(g1, #[trigger] present_colors@[k]) by {
                    if k < old_pc.len() {
                        assert(present_colors@[k] == old_pc[k]);
                    } else {
                        let i = choose|i: GridIndex| #[trigger] cx_holds(cx_kind(grid.at(i)), color);
                        assert(cx_holds(cx_kind(g1.at(i)), present_colors@[k]));
                    }
                }
                assert forall|k: int, i: GridIndex|
                    0 <= k < ci + 1 && #[trigger] cx_holds(cx_kind(g1.at(i)), colors@[k]) implies present_colors@.contains(
                    colors@[k],
                ) by {
                    if k < ci {
                        assert(old_pc.contains(colors@[k]));
                        let w = choose|w: int| 0 <= w < old_pc.len() && old_pc[w] == colors@[k];
                        assert(present_colors@[w] == old_pc[w]);
                    }
                }
            }
            let indices = get_all_indices(&grid, color);
            let mut k: usize = 0;
            while k < indices.len()
                invariant
                    grid.wf(),
                    grid.spec_size() == size,
                    forall|i: GridIndex| #[trigger] cx_kind(grid.at(i)) == cx_kind(g1.at(i)),
                    k <= indices@.len(),
                decreases indices@.len() - k,
            {
                let index = indices[k];
                let neighbors = grid.iter_neighbors(index.grid_index);
                let mut m: usize = 0;
                while m < neighbors.len()
                    invariant
                        grid.wf(),
                        grid.spec_size() == size,
                        forall|i: GridIndex| #[trigger] cx_kind(grid.at(i)) == cx_kind(g1.at(i)),
                        m <= neighbors@.len(),
                    decreases neighbors@.len() - m,
                {
                    let (npos, ndir, _) = neighbors[m];
                    let options = [None, Some(0usize), Some(1usize)];
                    let mut o: usize = 0;
                    while o < 3
                        invariant
                            grid.wf(),
                            grid.spec_size() == size,
                            forall|i: GridIndex| #[trigger] cx_kind(grid.at(i)) == cx_kind(g1.at(i)),
                            o <= 3,
                        decreases 3 - o,
                    {
                        let neighbor_index = CxnGridIndex { grid_index: npos, layer_index: options[o] };
                        if contains_index(&indices, neighbor_index) {
                            let ghost before = grid;
                            connect(&mut grid, index, neighbor_index, ndir);
                            proof {
                                assert forall|i: GridIndex| #[trigger] cx_kind(grid.at(i)) == cx_kind(g1.at(i)) by {
                                    assert(cx_kind(grid.at(i)) == cx_kind(before.at(i)));
                                }
                            }
                        }
                        o = o + 1;
                    }
                    m = m + 1;
                }
                k = k + 1;
            }
        } else {
            proof {
                assert forall|k: int, i: GridIndex|
                    0 <= k < ci + 1 && #[trigger] cx_holds(cx_kind(g1.at(i)), colors@[k]) implies present_colors@.contains(
                    colors@[k],
                ) by {
                    if k == ci {
                        assert(cx_holds(cx_kind(grid.at(i)), color));
                    }
                }
            }
        }
        ci = ci + 1;
    }
    proof {
        assert forall|i: GridIndex| #[trigger] from_gen(gen_grid.at(i), cx_kind(grid.at(i)), exact) by {
            assert(from_gen(gen_grid.at(i), cx_kind(g1.at(i)), exact));
        }
    }
    let mut pc: usize = 0;
    while pc < present_colors.len()
        invariant
            grid.wf(),
            grid.spec_size() == size,
            gen_grid.spec_size() == size,
            pc <= present_colors@.len(),
            exact == (generator_settings.max_intersections == 0),
            exact ==> intersections_left == 0,
            forall|i: GridIndex| #[trigger] from_gen(gen_grid.at(i), cx_kind(grid.at(i)), exact),
        decreases present_colors@.len() - pc,
    {
        let ghost before = grid;
        let ghost left_before = intersections_left;
        let color = present_colors[pc];
        knockout_loops(&mut grid, color, &mut intersections_left, generator_settings);
        proof {
            assert forall|i: GridIndex| #[trigger] from_gen(gen_grid.at(i), cx_kind(grid.at(i)), exact) by {
                assert(from_gen(gen_grid.at(i), cx_kind(before.at(i)), exact));
                assert(kind_or_split(cx_kind(before.at(i)), cx_kind(grid.at(i)), color));
                if exact {
                    assert(intersections_left == left_before);
                    assert(cx_kind(grid.at(i)) == cx_kind(before.at(i)));
                }
            }
        }
        pc = pc + 1;
    }
    let mut all_sources: Grid<Color> = Grid::with_size(size);
    proof {
        assert forall|i: GridIndex| #[trigger] all_sources.at(i) is None by {
            if size.spec_contains(i) {
                lemma_lin_bounds(size, i);
            }
        }
    }
    pc = 0;
    while pc < present_colors.len()
        invariant
            grid.wf(),
            grid.spec_size() == size,
            gen_grid.spec_size() == size,
            all_sources.wf(),
            all_sources.spec_size() == size,
            pc <= present_colors@.len(),
            exact == (generator_settings.max_intersections == 0),
            forall|i: GridIndex| #[trigger] from_gen(gen_grid.at(i), cx_kind(grid.at(i)), exact),
            forall|k: int| 0 <= k < present_colors@.len() ==> held(g1, #[trigger] present_colors@[k]),
            forall|i: GridIndex| #[trigger] from_gen(gen_grid.at(i), cx_kind(g1.at(i)), exact),
            placed_ok(grid, all_sources),
            forall|k: int| 0 <= k < pc ==> placed(all_sources, #[trigger] present_colors@[k]),
        decreases present_colors@.len() - pc,
    {
        let color = present_colors[pc];
        let mut potential_sources = single_cells(&grid, color);
        if potential_sources.len() == 0 {
            proof {
                if exact {
                    assert(held(g1, present_colors@[pc as int]));
                    let i0 = choose|i: GridIndex| #[trigger] cx_holds(cx_kind(g1.at(i)), present_colors@[pc as int]);
                    assert(from_gen(gen_grid.at(i0), cx_kind(g1.at(i0)), exact));
                    assert(cx_holds(gen_kind(gen_grid.at(i0)), color));
                    assert(color_occurs(*gen_grid, color));
                    assert forall|i: GridIndex| gen_grid.at(i) != Some(GeneratorCell::SingleGroup(color)) by {
                        if gen_grid.at(i) == Some(GeneratorCell::SingleGroup(color)) {
                            assert(from_gen(gen_grid.at(i), cx_kind(grid.at(i)), exact));
                            assert(cx_kind(grid.at(i)) == Some((false, color, color)));
                            assert(potential_sources@.contains(i));
                        }
                    }
                }
            }
            return Err(GeneratorFailure::CannotAddSource);
        }
        let first = potential_sources.swap_remove(random_below(potential_sources.len()));
        let ghost before = all_sources;
        proof {
            assert(cx_kind(grid.at(first)) == Some((false, color, color)));
            assert(grid.at(first) is Some);
            assert(size.spec_contains(first));
        }
        let _ = all_sources.insert(first, color);
        proof {
            lemma_at_update(before, all_sources, first, Some(color));
            lemma_sources_step(grid, before, all_sources, first, color, present_colors@, pc as int);
        }
        while potential_sources.len() > 0 && chance(generator_settings.extra_source_chance)
            invariant
                grid.wf(),
                grid.spec_size() == size,
                all_sources.wf(),
                all_sources.spec_size() == size,
                pc < present_colors@.len(),
                color == present_colors@[pc as int],
                forall|k: int| 0 <= k < potential_sources@.len() ==> cx_kind(grid.at(#[trigger] potential_sources@[k])) == Some(
                    (false, color, color),
                ),
                placed_ok(grid, all_sources),
                forall|k: int| 0 <= k < pc + 1 ==> placed(all_sources, #[trigger] present_colors@[k]),
            decreases potential_sources@.len(),
        {
            let extra = potential_sources.swap_remove(random_below(potential_sources.len()));
            let ghost before2 = all_sources;
            proof {
                assert(cx_kind(grid.at(extra)) == Some((false, color, color)));
                assert(size.spec_contains(extra));
            }
            let _ = all_sources.insert(extra, color);
            proof {
                lemma_at_update(before2, all_sources, extra, Some(color));
                lemma_sources_keep(grid, before2, all_sources, extra, color, present_colors@, pc as int + 1);
            }
        }
        pc = pc + 1;
    }
    let mut puzzle_grid: Grid<PuzzleCell> = Grid::with_size(size);
    let mut li: usize = 0;
    while li < n
        invariant
            grid.wf(),
            grid.spec_size() == size,
            all_sources.wf(),
            all_sources.spec_size() == size,
            puzzle_grid.wf(),
            puzzle_grid.spec_size() == size,
            n == size.area(),
            n == grid@.len(),
            li <= n,
            forall|j: int| 0 <= j < li ==> #[trigger] puzzle_grid@[j] == built(grid@[j], all_sources@[j]),
            forall|j: int| li <= j < n ==> (#[trigger] puzzle_grid@[j]) is None,
        decreases n - li,
    {
        assert(all_sources@.len() == n);
        match grid.get_at_linear(li) {
            Some(ConnectionCell::Single(connections, _color)) => {
                match all_sources.get_at_linear(li) {
                    Some(source) => puzzle_grid.set_at_linear(li, Some(PuzzleCell::Source { connections, source })),
                    None => puzzle_grid.set_at_linear(li, Some(PuzzleCell::Normal { connections })),
                }
            },
            Some(ConnectionCell::Intersection(connections, _, _)) => {
                puzzle_grid.set_at_linear(li, Some(PuzzleCell::Intersection { connections }));
            },
            None => {},
        }
        li = li + 1;
    }
    proof {
        assert forall|i: GridIndex| #[trigger] puzzle_grid.at(i) == built(grid.at(i), all_sources.at(i)) by {
            if size.spec_contains(i) {
                lemma_lin_bounds(size, i);
            }
        }
        assert forall|i: GridIndex| #[trigger] puzzle_grid.at(i) is Some <==> gen_grid.at(i) is Some by {
            assert(puzzle_grid.at(i) == built(grid.at(i), all_sources.at(i)));
            assert(from_gen(gen_grid.at(i), cx_kind(grid.at(i)), exact));
        }
        assert forall|i: GridIndex|
            #[trigger] gen_kind(gen_grid.at(i)) matches Some((true, _, _)) implies puzzle_grid.at(i) matches Some(
            PuzzleCell::Intersection { .. },
        ) by {
            assert(puzzle_grid.at(i) == built(grid.at(i), all_sources.at(i)));
            assert(from_gen(gen_grid.at(i), cx_kind(grid.at(i)), exact));
        }
        assert forall|i: GridIndex, c: Color| #[trigger] is_source_of(puzzle_grid.at(i), c) implies gen_grid.at(i)
            == Some(GeneratorCell::SingleGroup(c)) by {
            assert(puzzle_grid.at(i) == built(grid.at(i), all_sources.at(i)));
            assert(all_sources.at(i) == Some(c));
            assert(from_gen(gen_grid.at(i), cx_kind(grid.at(i)), exact));
        }
        assert forall|c: Color| #[trigger] color_occurs(*gen_grid, c) implies exists|i: GridIndex|
            #[trigger] is_source_of(puzzle_grid.at(i), c) by {
            let i0 = choose|i: GridIndex| #[trigger] cx_holds(gen_kind(gen_grid.at(i)), c);
            assert(from_gen(gen_grid.at(i0), cx_kind(g1.at(i0)), exact));
            assert(cx_holds(cx_kind(g1.at(i0)), c));
            let k = color_index(c);
            assert(colors_seq()[k] == c);
            assert(present_colors@.contains(c));
            let w = choose|w: int| 0 <= w < present_colors@.len() && present_colors@[w] == c;
            assert(placed(all_sources, present_colors@[w]));
            let j = choose|j: GridIndex| #[trigger] all_sources.at(j) == Some(present_colors@[w]);
            assert(puzzle_grid.at(j) == built(grid.at(j), all_sources.at(j)));
            assert(is_source_of(puzzle_grid.at(j), c));
        }
    }
    Ok(puzzle_grid)
}

/// The position of a color in the order of colors.
spec fn color_index(c: Color) -> int {
    match c {
        Color::Red => 0,
        Color::Orange => 1,
        Color::Yellow => 2,
        Color::Green => 3,
        Color::Blue => 4,
        Color::Purple => 5,
    }
}

spec fn colors_seq() -> Seq<Color> {
    seq![Color::Red, Color::Orange, Color::Yellow, Color::Green, Color::Blue, Color::Purple]
}

/// Some cell holds color `c`.
pub open spec fn held(g: Grid<ConnectionCell>, c: Color) -> bool {
    exists|i: GridIndex| #[trigger] cx_holds(cx_kind(g.at(i)), c)
}

/// Some source of color `c` is placed.
pub open spec fn placed(srcs: Grid<Color>, c: Color) -> bool {
    exists|i: GridIndex| #[trigger] srcs.at(i) == Some(c)
}

/// Every source placed sits on a single cell of its color.
pub open spec fn placed_ok(grid: Grid<ConnectionCell>, srcs: Grid<Color>) -> bool {
    forall|i: GridIndex| #[trigger] srcs.at(i) is Some ==> cx_kind(grid.at(i)) == Some(
        (false, srcs.at(i).unwrap(), srcs.at(i).unwrap()),
    )
}

/// The static cell built from a wired cell and the source placed on it.
pub open spec fn built(c: Option<ConnectionCell>, s: Option<Color>) -> Option<PuzzleCell> {
    match c {
        Some(ConnectionCell::Single(connections, _)) => match s {
            Some(source) => Some(PuzzleCell::Source { connections, source }),
            None => Some(PuzzleCell::Normal { connections }),
        },
        Some(ConnectionCell::Intersection(connections, _, _)) => Some(PuzzleCell::Intersection { connections }),
        None => None,
    }
}

/// Placing a source of `color` on one of its single cells keeps every placed
/// source on a single cell of its color and every color placed so far placed.
proof fn lemma_sources_keep(
    grid: Grid<ConnectionCell>,
    before: Grid<Color>,
    after: Grid<Color>,
    p: GridIndex,
    color: Color,
    present: Seq<Color>,
    upto: int,
)
    requires
        cx_kind(grid.at(p)) == Some((false, color, color)),
        after.at(p) == Some(color),
        forall|i: GridIndex| i != p ==> #[trigger] after.at(i) == before.at(i),
        placed_ok(grid, before),
        0 <= upto <= present.len(),
        forall|k: int| 0 <= k < upto ==> placed(before, #[trigger] present[k]),
    ensures
        placed_ok(grid, after),
        forall|k: int| 0 <= k < upto ==> placed(after, #[trigger] present[k]),
{
    assert forall|i: GridIndex| #[trigger] after.at(i) is Some implies cx_kind(grid.at(i)) == Some(
        (false, after.at(i).unwrap(), after.at(i).unwrap()),
    ) by {
        if i != p {
            assert(before.at(i) is Some);
        }
    }
    assert forall|k: int| 0 <= k < upto implies placed(after, #[trigger] present[k]) by {
        assert(placed(before, present[k]));
        let i = choose|i: GridIndex| #[trigger] before.at(i) == Some(present[k]);
        if i == p {
            assert(cx_kind(grid.at(i)) == Some((false, present[k], present[k])));
            assert(after.at(p) == Some(present[k]));
        } else {
            assert(after.at(i) == Some(present[k]));
        }
    }
}

/// Placing the first source of the color at `pc` also places that color.
proof fn lemma_sources_step(
    grid: Grid<ConnectionCell>,
    before: Grid<Color>,
    after: Grid<Color>,
    p: GridIndex,
    color: Color,
    present: Seq<Color>,
    pc: int,
)
    requires
        cx_kind(grid.at(p)) == Some((false, color, color)),
        after.at(p) == Some(color),
        forall|i: GridIndex| i != p ==> #[trigger] after.at(i) == before.at(i),
        placed_ok(grid, before),
        0 <= pc < present.len(),
        present[pc] == color,
        forall|k: int| 0 <= k < pc ==> placed(before, #[trigger] present[k]),
    ensures
        placed_ok(grid, after),
        forall|k: int| 0 <= k < pc + 1 ==> placed(after, #[trigger] present[k]),
{
    lemma_sources_keep(grid, before, after, p, color, present, pc);
    assert forall|k: int| 0 <= k < pc + 1 implies placed(after, #[trigger] present[k]) by {
        if k == pc {
            assert(after.at(p) == Some(present[k]));
        }
    }
}

/// The previous layer and direction recorded for a position are a neighbor
/// that opens toward it, reached through a direction it opens back in.
pub open spec fn via_ok(grid: Grid<ConnectionCell>, p: Option<(CxnGridIndex, Direction)>, t: GridIndex) -> bool {
    match p {
        Some((f, d)) => f.grid_index.spec_moved_in(d) == Some(t) && grid.at(f.grid_index) is Some && grid.at(t) is Some
            && cx_dirs(grid.at(f.grid_index)).at(d) && cx_dirs(grid.at(t)).at(d.spec_inverse()),
        None => true,
    }
}

/// A loop to break: a layer, the layer it was last reached from, and the
/// direction between them, along which both open.
pub open spec fn candidate_ok(grid: Grid<ConnectionCell>, c: (CxnGridIndex, CxnGridIndex, Direction)) -> bool {
    via_ok(grid, Some((c.1, c.2)), c.0.grid_index)
}

/// A breadth-first walk over the layers `indices` from `origin` counts the ways
/// each layer is reached; each layer reached more than once is returned with
/// the layer it was last reached from and the direction between them.
fn loop_candidates(
    grid: &Grid<ConnectionCell>,
    indices: &Vec<CxnGridIndex>,
    origin: CxnGridIndex,
) -> (r: Vec<(CxnGridIndex, CxnGridIndex, Direction)>)
    requires
        grid.wf(),
        grid.at(origin.grid_index) is Some,
    ensures
        forall|k: int| 0 <= k < r@.len() ==> candidate_ok(*grid, #[trigger] r@[k]),
{
    let n = grid.width() * grid.height();
    let mut checked: Vec<(bool, bool)> = Vec::new();
    let mut counts: Vec<(usize, usize)> = Vec::new();
    let mut prevs: Vec<(Option<(CxnGridIndex, Direction)>, Option<(CxnGridIndex, Direction)>)> = Vec::new();
    let mut li: usize = 0;
    while li < n
        invariant
            li <= n,
            checked@.len() == li,
            counts@.len() == li,
            prevs@.len() == li,
            forall|j: int| 0 <= j < li ==> #[trigger] prevs@[j] == (
                None::<(CxnGridIndex, Direction)>,
                None::<(CxnGridIndex, Direction)>,
            ),
        decreases n - li,
    {
        checked.push((true, true));
        counts.push((0, 0));
        prevs.push((None, None));
        li = li + 1;
    }
    let mut k: usize = 0;
    while k < indices.len()
        invariant
            grid.wf(),
            n == grid@.len(),
            checked@.len() == n,
            k <= indices@.len(),
            prevs@.len() == n,
            forall|j: int| 0 <= j < n ==> #[trigger] prevs@[j] == (
                None::<(CxnGridIndex, Direction)>,
                None::<(CxnGridIndex, Direction)>,
            ),
        decreases indices@.len() - k,
    {
        match key_of(grid, indices[k]) {
            Some((kl, kk)) => {
                let cur = checked[kl];
                if kk == 0 {
                    checked.set(kl, (false, cur.1));
                } else {
                    checked.set(kl, (cur.0, false));
                }
            },
            None => {},
        }
        k = k + 1;
    }
    match key_of(grid, origin) {
        Some((ol, ok)) => {
            if ok == 0 {
                counts.set(ol, (1, counts[ol].1));
            } else {
                counts.set(ol, (counts[ol].0, 1));
            }
        },
        None => {},
    }
    let mut queue: Vec<CxnGridIndex> = Vec::new();
    queue.push(origin);
    let mut head: usize = 0;
    while head < queue.len()
        invariant
            grid.wf(),
            n == grid@.len(),
            checked@.len() == n,
            counts@.len() == n,
            prevs@.len() == n,
            head <= queue@.len(),
            forall|q: int| 0 <= q < queue@.len() ==> grid.at((#[trigger] queue@[q]).grid_index) is Some,
            forall|j: int| 0 <= j < n ==> via_ok(*grid, (#[trigger] prevs@[j]).0, index_of(grid.spec_size(), j)) && via_ok(
                *grid,
                prevs@[j].1,
                index_of(grid.spec_size(), j),
            ),
        decreases count_unvisited(checked@), queue@.len() - head,
    {
        let exploring = queue[head];
        head = head + 1;
        let (el, ek) = match key_of(grid, exploring) {
            Some(key) => key,
            None => {
                continue;
            },
        };
        let cur = checked[el];
        let seen = if ek == 0 {
            cur.0
        } else {
            cur.1
        };
        if seen {
            continue;
        }
        let ghost before = checked@;
        if ek == 0 {
            checked.set(el, (true, cur.1));
        } else {
            checked.set(el, (cur.0, true));
        }
        proof {
            assert(checked@ == mark(before, el as int, ek as int));
            lemma_count_unvisited_mark(before, el as int, ek as int);
        }
        let layer = get_layer(grid, exploring);
        let dirs = layer.iter_set();
        let mut d: usize = 0;
        while d < dirs.len()
            invariant
                grid.wf(),
                n == grid@.len(),
                checked@.len() == n,
                counts@.len() == n,
                prevs@.len() == n,
                head <= queue@.len(),
                d <= dirs@.len(),
                grid.at(exploring.grid_index) is Some,
                forall|dd: Direction| #[trigger] dirs@.contains(dd) ==> cx_dirs(grid.at(exploring.grid_index)).at(dd),
                forall|q: int| 0 <= q < queue@.len() ==> grid.at((#[trigger] queue@[q]).grid_index) is Some,
                forall|j: int| 0 <= j < n ==> via_ok(*grid, (#[trigger] prevs@[j]).0, index_of(grid.spec_size(), j)) && via_ok(
                    *grid,
                    prevs@[j].1,
                    index_of(grid.spec_size(), j),
                ),
            decreases dirs@.len() - d,
        {
            let dir = dirs[d];
            assert(dirs@.contains(dirs@[d as int]));
            assert(dirs@.contains(dir));
            match grid.get_neighbor(exploring.grid_index, dir) {
                Some((npos, ncell)) => {
                    let is_intersection = match ncell {
                        ConnectionCell::Single(_, _) => false,
                        ConnectionCell::Intersection(_, _, _) => true,
                    };
                    let options = [None, Some(0usize), Some(1usize)];
                    assert(cx_dirs(grid.at(exploring.grid_index)).at(dir));
                    let mut o: usize = 0;
                    while o < 3
                        invariant
                            grid.wf(),
                            n == grid@.len(),
                            checked@.len() == n,
                            counts@.len() == n,
                            prevs@.len() == n,
                            head <= queue@.len(),
                            o <= 3,
                            grid.at(exploring.grid_index) is Some,
                            cx_dirs(grid.at(exploring.grid_index)).at(dir),
                            exploring.grid_index.spec_moved_in(dir) == Some(npos),
                            grid.at(npos) is Some,
                            forall|q: int| 0 <= q < queue@.len() ==> grid.at((#[trigger] queue@[q]).grid_index) is Some,
                            forall|j: int| 0 <= j < n ==> via_ok(*grid, (#[trigger] prevs@[j]).0, index_of(grid.spec_size(), j))
                                && via_ok(*grid, prevs@[j].1, index_of(grid.spec_size(), j)),
                        decreases 3 - o,
                    {
                        let layer_index = options[o];
                        if layer_index.is_some() == is_intersection {
                            let neighbor_index = CxnGridIndex { grid_index: npos, layer_index };
                            match key_of(grid, neighbor_index) {
                                Some((nl, nk)) => {
                                    let nc = checked[nl];
                                    let not_checked = if nk == 0 {
                                        !nc.0
                                    } else {
                                        !nc.1
                                    };
                                    if not_checked && get_layer(grid, neighbor_index).contains(dir.inverse()) {
                                        let c = counts[nl];
                                        let via = Some((exploring, dir));
                                        proof {
                                            lemma_index_of_lin(grid.spec_size(), npos);
                                            assert(via_ok(*grid, via, index_of(grid.spec_size(), nl as int)));
                                        }
                                        let ghost old_prevs = prevs@;
                                        if nk == 0 {
                                            counts.set(nl, (if c.0 < 2 { c.0 + 1 } else { c.0 }, c.1));
                                            prevs.set(nl, (via, prevs[nl].1));
                                        } else {
                                            counts.set(nl, (c.0, if c.1 < 2 { c.1 + 1 } else { c.1 }));
                                            prevs.set(nl, (prevs[nl].0, via));
                                        }
                                        queue.push(neighbor_index);
                                        proof {
                                            assert forall|j: int| 0 <= j < n implies via_ok(*grid, (#[trigger] prevs@[j]).0, index_of(grid.spec_size(), j))
                                                && via_ok(*grid, prevs@[j].1, index_of(grid.spec_size(), j)) by {
                                                if j != nl {
                                                    assert(prevs@[j] == old_prevs[j]);
                                                }
                                            }
                                        }
                                    }
                                },
                                None => {},
                            }
                        }
                        o = o + 1;
                    }
                },
                None => {},
            }
            d = d + 1;
        }
    }
    let mut candidates: Vec<(CxnGridIndex, CxnGridIndex, Direction)> = Vec::new();
    li = 0;
    while li < n
        invariant
            grid.wf(),
            n == grid@.len(),
            counts@.len() == n,
            prevs@.len() == n,
            li <= n,
            forall|j: int| 0 <= j < n ==> via_ok(*grid, (#[trigger] prevs@[j]).0, index_of(grid.spec_size(), j)) && via_ok(
                *grid,
                prevs@[j].1,
                index_of(grid.spec_size(), j),
            ),
            forall|k: int| 0 <= k < candidates@.len() ==> candidate_ok(*grid, #[trigger] candidates@[k]),
        decreases n - li,
    {
        let index = get_index_from_linear_index(grid.size(), li);
        assert(via_ok(*grid, prevs@[li as int].0, index) && via_ok(*grid, prevs@[li as int].1, index));
        let ghost old_c = candidates@;
        match grid.get_at_linear(li) {
            Some(ConnectionCell::Single(_, _)) => {
                if counts[li].0 > 1 {
                    match prevs[li].0 {
                        Some((from, dir)) => candidates.push(
                            (CxnGridIndex { grid_index: index, layer_index: None }, from, dir),
                        ),
                        None => {},
                    }
                }
            },
            Some(ConnectionCell::Intersection(_, _, _)) => {
                if counts[li].0 > 1 {
                    match prevs[li].0 {
                        Some((from, dir)) => candidates.push(
                            (CxnGridIndex { grid_index: index, layer_index: Some(0) }, from, dir),
                        ),
                        None => {},
                    }
                }
                if counts[li].1 > 1 {
                    match prevs[li].1 {
                        Some((from, dir)) => candidates.push(
                            (CxnGridIndex { grid_index: index, layer_index: Some(1) }, from, dir),
                        ),
                        None => {},
                    }
                }
            },
            None => {},
        }
        proof {
            assert forall|k: int| 0 <= k < candidates@.len() implies candidate_ok(*grid, #[trigger] candidates@[k]) by {
                if k < old_c.len() {
                    assert(candidates@[k] == old_c[k]);
                }
            }
        }
        li = li + 1;
    }
    candidates
}

/// The visiting key of a layer: its row-major position, and 1 for the second
/// layer of an intersection, 0 otherwise.
fn key_of(grid: &Grid<ConnectionCell>, index: CxnGridIndex) -> (r: Option<(usize, usize)>)
    requires
        grid.wf(),
    ensures
        r is Some ==> r.unwrap().0 < grid@.len() && r.unwrap().1 < 2,
        r is Some ==> r.unwrap().0 == lin(grid.spec_size(), index.grid_index) && grid.spec_size().spec_contains(
            index.grid_index,
        ),
{
    match get_linear_index(grid.size(), index.grid_index) {
        Some(li) => {
            let l: usize = match index.layer_index {
                Some(1) => 1,
                _ => 0,
            };
            Some((li, l))
        },
        None => None,
    }
}

/// Breaks up loops in the connections of one color: while the chance allows,
/// a breadth-first walk from a random layer counts the ways to reach each layer,
/// and a layer reached more than once is cut from the layer it was last reached
/// from, or, when intersections are left, turned into an intersection that
/// keeps that connection apart. There is at most one round per position of
/// the grid.
fn knockout_loops(
    grid: &mut Grid<ConnectionCell>,
    color: Color,
    intersections_left: &mut usize,
    generator_settings: &GeneratorSettings,
)
    requires
        old(grid).wf(),
    ensures
        final(grid).wf(),
        final(grid).spec_size() == old(grid).spec_size(),
        evolves(*old(grid), *final(grid), color),
        *final(intersections_left) <= *old(intersections_left),
        *final(intersections_left) == *old(intersections_left) ==> same_shape(*old(grid), *final(grid)),
{
    let ghost g0 = *grid;
    let n = grid.width() * grid.height();
    let mut budget: usize = n;
    proof {
        assert forall|i: GridIndex| #[trigger] kind_or_split(cx_kind(g0.at(i)), cx_kind(grid.at(i)), color) by {}
    }
    while budget > 0
        invariant
            grid.wf(),
            grid.spec_size() == old(grid).spec_size(),
            n == grid@.len(),
            g0 == *old(grid),
            evolves(g0, *grid, color),
            *intersections_left <= *old(intersections_left),
            *intersections_left == *old(intersections_left) ==> same_shape(g0, *grid),
        decreases budget,
    {
        budget = budget - 1;
        if !chance(generator_settings.knockout_loop_chance) {
            break;
        }
        let indices = get_all_indices(grid, color);
        if indices.len() <= 3 {
            break;
        }
        let origin = indices[random_below(indices.len())];
        let candidates = loop_candidates(grid, &indices, origin);
        if candidates.len() == 0 {
            break;
        }
        let (break_to, break_from, direction) = candidates[random_below(candidates.len())];
        let split = break_to.layer_index.is_none() && *intersections_left > 0 && chance(
            generator_settings.intersection_chance,
        );
        let ghost before = *grid;
        if break_loop(grid, color, break_to, break_from, direction, split) {
            *intersections_left = *intersections_left - 1;
        }
        proof {
            lemma_evolves_trans(g0, before, *grid, color);
            if *intersections_left == *old(intersections_left) {
                assert(same_shape(g0, before));
                assert forall|i: GridIndex| #[trigger] cx_kind(grid.at(i)) == cx_kind(g0.at(i)) by {
                    assert(cx_kind(before.at(i)) == cx_kind(g0.at(i)));
                    assert(cx_kind(grid.at(i)) == cx_kind(before.at(i)));
                }
            }
        }
    }
}

/// The layer a direction of a cell goes to when the cell is split.
pub open spec fn split_conn(open: bool, is_back: bool) -> LayerConnection {
    if !open {
        LayerConnection::Disconnected
    } else if is_back {
        LayerConnection::Layer1
    } else {
        LayerConnection::Layer0
    }
}

/// The connections of a cell split so that the direction `back` goes to the
/// second layer and the other open directions to the first.
pub open spec fn split_map(ds: DirectionSet, back: Direction) -> DirectionMap<LayerConnection> {
    DirectionMap {
        e: split_conn(ds.e, back == Direction::E),
        n: split_conn(ds.n, back == Direction::N),
        w: split_conn(ds.w, back == Direction::W),
        s: split_conn(ds.s, back == Direction::S),
    }
}

/// A cell keeps its kind and colors, or a single cell of `color` became an
/// intersection of `color` with itself.
pub open spec fn kind_or_split(a: Option<(bool, Color, Color)>, b: Option<(bool, Color, Color)>, color: Color) -> bool {
    b == a || (a == Some((false, color, color)) && b == Some((true, color, color)))
}

/// `b` follows from `a` by loop breaking on `color`: same positions, kinds kept
/// or split, and no connection added.
pub open spec fn evolves(a: Grid<ConnectionCell>, b: Grid<ConnectionCell>, color: Color) -> bool {
    &&& a.wf()
    &&& b.wf()
    &&& a.spec_size() == b.spec_size()
    &&& forall|i: GridIndex| #[trigger] kind_or_split(cx_kind(a.at(i)), cx_kind(b.at(i)), color)
    &&& dirs_shrink(a, b)
}

/// Breaks one loop of `color`, given the layer reached twice, the layer it was
/// last reached from, and the direction from the latter to the former. When
/// `split` is asked for and the layer is a single cell of that color, the cell
/// becomes an intersection whose second layer keeps only the connection back;
/// otherwise the connection between the two layers is closed on both sides.
/// Returns whether the cell was split.
fn break_loop(
    grid: &mut Grid<ConnectionCell>,
    color: Color,
    break_to: CxnGridIndex,
    break_from: CxnGridIndex,
    direction: Direction,
    split: bool,
) -> (r: bool)
    requires
        old(grid).wf(),
    ensures
        r == (split && break_to.layer_index is None && cx_kind(old(grid).at(break_to.grid_index)) == Some(
            (false, color, color),
        )),
        r ==> final(grid).spec_size() == old(grid).spec_size() && final(grid).at(break_to.grid_index) == Some(
            ConnectionCell::Intersection(
                split_map(cx_dirs(old(grid).at(break_to.grid_index)), direction.spec_inverse()),
                color,
                color,
            ),
        ) && forall|i: GridIndex| i != break_to.grid_index ==> #[trigger] final(grid).at(i) == old(grid).at(i),
        !r ==> same_shape(*old(grid), *final(grid)) && dirs_shrink(*old(grid), *final(grid)),
        evolves(*old(grid), *final(grid), color),
{
    let ghost g0 = *grid;
    if split && break_to.layer_index.is_none() {
        match grid.get(break_to.grid_index) {
            Some(cell) => match *cell {
                ConnectionCell::Single(layer, c) => {
                    if c == color {
                        let back = direction.inverse();
                        let connections = DirectionMap {
                            e: split_layer(layer.e, back == Direction::E),
                            n: split_layer(layer.n, back == Direction::N),
                            w: split_layer(layer.w, back == Direction::W),
                            s: split_layer(layer.s, back == Direction::S),
                        };
                        let _ = grid.insert(break_to.grid_index, ConnectionCell::Intersection(connections, color, color));
                        proof {
                            lemma_at_update(g0, *grid, break_to.grid_index, Some(ConnectionCell::Intersection(connections, color, color)));
                            assert forall|i: GridIndex, d: Direction| #[trigger] cx_dirs(grid.at(i)).at(d) implies cx_dirs(g0.at(i)).at(d) by {
                                if i == break_to.grid_index {
                                    match d {
                                        Direction::E => {},
                                        Direction::N => {},
                                        Direction::W => {},
                                        Direction::S => {},
                                    }
                                }
                            }
                            assert forall|i: GridIndex| #[trigger] kind_or_split(cx_kind(g0.at(i)), cx_kind(grid.at(i)), color) by {
                                if i != break_to.grid_index {
                                    assert(grid.at(i) == g0.at(i));
                                }
                            }
                        }
                        return true;
                    }
                },
                ConnectionCell::Intersection(_, _, _) => {},
            },
            None => {},
        }
    }
    disconnect(grid, break_from, break_to, direction);
    proof {
        assert forall|i: GridIndex| #[trigger] kind_or_split(cx_kind(g0.at(i)), cx_kind(grid.at(i)), color) by {
            assert(cx_kind(grid.at(i)) == cx_kind(g0.at(i)));
        }
    }
    false
}

/// Loop breaking composes.
proof fn lemma_evolves_trans(a: Grid<ConnectionCell>, b: Grid<ConnectionCell>, c: Grid<ConnectionCell>, color: Color)
    requires
        evolves(a, b, color),
        evolves(b, c, color),
    ensures
        evolves(a, c, color),
{
    assert forall|i: GridIndex| #[trigger] kind_or_split(cx_kind(a.at(i)), cx_kind(c.at(i)), color) by {
        assert(kind_or_split(cx_kind(a.at(i)), cx_kind(b.at(i)), color));
        assert(kind_or_split(cx_kind(b.at(i)), cx_kind(c.at(i)), color));
    }
    assert forall|i: GridIndex, d: Direction| #[trigger] cx_dirs(c.at(i)).at(d) implies cx_dirs(a.at(i)).at(d) by {
        assert(cx_dirs(b.at(i)).at(d));
    }
}

/// The layer a direction of a cell goes to when the cell is split: the
/// connection it was reached by goes to the second layer, the rest to the first.
fn split_layer(open: bool, is_back: bool) -> (r: LayerConnection)
    ensures
        r == split_conn(open, is_back),
{
    if !open {
        LayerConnection::Disconnected
    } else if is_back {
        LayerConnection::Layer1
    } else {
        LayerConnection::Layer0
    }
}

} // verus!
