//! Fixed puzzles for trying things out.

use vstd::prelude::*;

use crate::cell::{LayerConnection, PuzzleCell};
use crate::color::Color;
use crate::direction::Direction;
use crate::direction_map::{DirectionMap, DirectionSet};
use crate::grid::{Grid, GridIndex, GridSize};
use crate::puzzle::Puzzle;

verus! {

/// The set of the directions given as flags, in the order east, north, west, south.
pub fn dirs(e: bool, n: bool, w: bool, s: bool) -> (r: DirectionSet)
    ensures
        r == (DirectionMap { e, n, w, s }),
{
    let mut set = DirectionSet::empty();
    if e {
        set.insert(Direction::E);
    }
    if n {
        set.insert(Direction::N);
    }
    if w {
        set.insert(Direction::W);
    }
    if s {
        set.insert(Direction::S);
    }
    proof {
        DirectionSet::lemma_ext_equal(set, DirectionMap { e, n, w, s });
    }
    set
}

/// The layer of an intersection that a direction goes to, from a number:
/// zero for none, one for the first layer, more for the second.
pub open spec fn layer_of_number(k: usize) -> LayerConnection {
    if k == 0 {
        LayerConnection::Disconnected
    } else if k == 1 {
        LayerConnection::Layer0
    } else {
        LayerConnection::Layer1
    }
}

/// The layer of each direction of an intersection, from numbers given in the
/// order east, north, west, south.
pub fn ldirs(e: usize, n: usize, w: usize, s: usize) -> (r: DirectionMap<LayerConnection>)
    ensures
        r == (DirectionMap {
            e: layer_of_number(e),
            n: layer_of_number(n),
            w: layer_of_number(w),
            s: layer_of_number(s),
        }),
{
    let mut map = DirectionMap::new_with_repeat(LayerConnection::Disconnected);
    if e > 0 {
        map.set(Direction::E, if e == 1 { LayerConnection::Layer0 } else { LayerConnection::Layer1 });
    }
    if n > 0 {
        map.set(Direction::N, if n == 1 { LayerConnection::Layer0 } else { LayerConnection::Layer1 });
    }
    if w > 0 {
        map.set(Direction::W, if w == 1 { LayerConnection::Layer0 } else { LayerConnection::Layer1 });
    }
    if s > 0 {
        map.set(Direction::S, if s == 1 { LayerConnection::Layer0 } else { LayerConnection::Layer1 });
    }
    proof {
        DirectionMap::lemma_ext_equal(
            map,
            DirectionMap { e: layer_of_number(e), n: layer_of_number(n), w: layer_of_number(w), s: layer_of_number(s) },
        );
    }
    map
}

/// The cells of `test_puzzle`, row by row.
pub open spec fn test_puzzle_cells() -> Seq<Option<PuzzleCell>> {
    seq![
        Some(PuzzleCell::Normal { connections: DirectionMap { e: false, n: true, w: false, s: false } }),
        Some(PuzzleCell::Normal { connections: DirectionMap { e: false, n: true, w: false, s: true } }),
        Some(PuzzleCell::Normal { connections: DirectionMap { e: false, n: true, w: false, s: true } }),
        Some(PuzzleCell::Source { connections: DirectionMap { e: false, n: false, w: false, s: true }, source: Color::Purple }),
    ]
}

/// The cells of `debug_puzzle`, row by row.
pub open spec fn debug_puzzle_cells() -> Seq<Option<PuzzleCell>> {
    seq![
        Some(PuzzleCell::Normal { connections: DirectionMap { e: false, n: false, w: false, s: false } }),
        Some(PuzzleCell::Normal { connections: DirectionMap { e: true, n: false, w: false, s: false } }),
        Some(PuzzleCell::Normal { connections: DirectionMap { e: true, n: true, w: false, s: false } }),
        Some(PuzzleCell::Normal { connections: DirectionMap { e: true, n: false, w: true, s: false } }),
        Some(PuzzleCell::Normal { connections: DirectionMap { e: true, n: true, w: true, s: false } }),
        Some(PuzzleCell::Normal { connections: DirectionMap { e: true, n: true, w: true, s: true } }),
        None,
        Some(PuzzleCell::Intersection { connections: DirectionMap { e: layer_of_number(1usize), n: layer_of_number(2usize), w: layer_of_number(2usize), s: layer_of_number(2usize) } }),
        Some(PuzzleCell::Intersection { connections: DirectionMap { e: layer_of_number(1usize), n: layer_of_number(1usize), w: layer_of_number(2usize), s: layer_of_number(2usize) } }),
        Some(PuzzleCell::Intersection { connections: DirectionMap { e: layer_of_number(1usize), n: layer_of_number(2usize), w: layer_of_number(1usize), s: layer_of_number(2usize) } }),
        Some(PuzzleCell::Source { connections: DirectionMap { e: false, n: false, w: false, s: false }, source: Color::Purple }),
        Some(PuzzleCell::Normal { connections: DirectionMap { e: false, n: true, w: false, s: false } }),
        Some(PuzzleCell::Normal { connections: DirectionMap { e: false, n: true, w: true, s: false } }),
        Some(PuzzleCell::Normal { connections: DirectionMap { e: false, n: true, w: false, s: true } }),
        Some(PuzzleCell::Normal { connections: DirectionMap { e: false, n: true, w: true, s: true } }),
        None,
        None,
        Some(PuzzleCell::Intersection { connections: DirectionMap { e: layer_of_number(2usize), n: layer_of_number(1usize), w: layer_of_number(2usize), s: layer_of_number(2usize) } }),
        Some(PuzzleCell::Intersection { connections: DirectionMap { e: layer_of_number(2usize), n: layer_of_number(1usize), w: layer_of_number(1usize), s: layer_of_number(2usize) } }),
        Some(PuzzleCell::Intersection { connections: DirectionMap { e: layer_of_number(1usize), n: layer_of_number(2usize), w: layer_of_number(0usize), s: layer_of_number(2usize) } }),
        None,
        Some(PuzzleCell::Normal { connections: DirectionMap { e: false, n: false, w: true, s: false } }),
        Some(PuzzleCell::Normal { connections: DirectionMap { e: false, n: false, w: true, s: true } }),
        Some(PuzzleCell::Source { connections: DirectionMap { e: true, n: false, w: true, s: false }, source: Color::Yellow }),
        Some(PuzzleCell::Normal { connections: DirectionMap { e: true, n: false, w: true, s: true } }),
        None,
        None,
        Some(PuzzleCell::Intersection { connections: DirectionMap { e: layer_of_number(2usize), n: layer_of_number(2usize), w: layer_of_number(1usize), s: layer_of_number(2usize) } }),
        Some(PuzzleCell::Intersection { connections: DirectionMap { e: layer_of_number(1usize), n: layer_of_number(2usize), w: layer_of_number(2usize), s: layer_of_number(0usize) } }),
        Some(PuzzleCell::Intersection { connections: DirectionMap { e: layer_of_number(2usize), n: layer_of_number(1usize), w: layer_of_number(2usize), s: layer_of_number(0usize) } }),
        None,
        Some(PuzzleCell::Normal { connections: DirectionMap { e: false, n: false, w: false, s: true } }),
        Some(PuzzleCell::Normal { connections: DirectionMap { e: true, n: false, w: false, s: true } }),
        None,
        Some(PuzzleCell::Normal { connections: DirectionMap { e: true, n: true, w: false, s: true } }),
        None,
        None,
        Some(PuzzleCell::Intersection { connections: DirectionMap { e: layer_of_number(2usize), n: layer_of_number(2usize), w: layer_of_number(2usize), s: layer_of_number(1usize) } }),
        Some(PuzzleCell::Intersection { connections: DirectionMap { e: layer_of_number(0usize), n: layer_of_number(1usize), w: layer_of_number(2usize), s: layer_of_number(2usize) } }),
        None,
        None,
        Some(PuzzleCell::Source { connections: DirectionMap { e: true, n: false, w: false, s: false }, source: Color::Blue }),
        Some(PuzzleCell::Source { connections: DirectionMap { e: true, n: true, w: false, s: false }, source: Color::Green }),
        None,
        Some(PuzzleCell::Source { connections: DirectionMap { e: true, n: true, w: true, s: false }, source: Color::Orange }),
        None,
        None,
        None,
        None,
        Some(PuzzleCell::Intersection { connections: DirectionMap { e: layer_of_number(2usize), n: layer_of_number(2usize), w: layer_of_number(2usize), s: layer_of_number(2usize) } }),
        None,
        None,
        None,
        None,
        None,
        Some(PuzzleCell::Source { connections: DirectionMap { e: true, n: true, w: true, s: true }, source: Color::Red }),
        None,
        None,
        None,
        None,
    ]
}

/// A one-column puzzle of four cells: a swap-colored source at the bottom and a
/// line of plain cells above it.
pub fn test_puzzle() -> (r: Puzzle)
    ensures
        r.wf(),
        r.spec_grid().spec_size() == (GridSize { width: 1, height: 4 }),
        r.spec_grid()@ == test_puzzle_cells(),
        r.spec_swap_limit() == 4,
        r.spec_hint() == (GridIndex { x: 0, y: 0 }),
{
    let size = GridSize { width: 1, height: 4 };
    assert(size.area() == 4) by (nonlinear_arith)
        requires
            size.width == 1,
            size.height == 4,
    ;
    let mut grid: Grid<PuzzleCell> = Grid::with_size(size);
    let _ = grid.insert(
        GridIndex::new(0, 0),
        PuzzleCell::Normal {
            connections: dirs(false, true, false, false),
        },
    );
    let _ = grid.insert(
        GridIndex::new(0, 3),
        PuzzleCell::Source {
            connections: dirs(false, false, false, true),
            source: Color::Purple,
        },
    );
    let _ = grid.insert(
        GridIndex::new(0, 1),
        PuzzleCell::Normal {
            connections: dirs(false, true, false, true),
        },
    );
    let _ = grid.insert(
        GridIndex::new(0, 2),
        PuzzleCell::Normal {
            connections: dirs(false, true, false, true),
        },
    );
    assert(grid@ =~= test_puzzle_cells());
    Puzzle::new(grid, 4, GridIndex { x: 0, y: 0 })
}

/// A ten-by-six puzzle that shows every kind of cell.
#[verifier::rlimit(100)]
pub fn debug_puzzle() -> (r: Puzzle)
    ensures
        r.wf(),
        r.spec_grid().spec_size() == (GridSize { width: 10, height: 6 }),
        r.spec_grid()@ == debug_puzzle_cells(),
        r.spec_swap_limit() == 4,
        r.spec_hint() == (GridIndex { x: 0, y: 0 }),
{
    let size = GridSize { width: 10, height: 6 };
    assert(size.area() == 60) by (nonlinear_arith)
        requires
            size.width == 10,
            size.height == 6,
    ;
    let mut grid: Grid<PuzzleCell> = Grid::with_size(size);
    let _ = grid.insert(
        GridIndex::new(0, 0),
        PuzzleCell::Normal {
            connections: dirs(false, false, false, false),
        },
    );
    let _ = grid.insert(
        GridIndex::new(0, 1),
        PuzzleCell::Source {
            connections: dirs(false, false, false, false),
            source: Color::Purple,
        },
    );

    let _ = grid.insert(
        GridIndex::new(1, 0),
        PuzzleCell::Normal {
            connections: dirs(true, false, false, false),
        },
    );
    let _ = grid.insert(
        GridIndex::new(1, 1),
        PuzzleCell::Normal {
            connections: dirs(false, true, false, false),
        },
    );
    let _ = grid.insert(
        GridIndex::new(1, 2),
        PuzzleCell::Normal {
            connections: dirs(false, false, true, false),
        },
    );
    let _ = grid.insert(
        GridIndex::new(1, 3),
        PuzzleCell::Normal {
            connections: dirs(false, false, false, true),
        },
    );
    let _ = grid.insert(
        GridIndex::new(1, 4),
        PuzzleCell::Source {
            connections: dirs(true, false, false, false),
            source: Color::Blue,
        },
    );

    let _ = grid.insert(
        GridIndex::new(2, 0),
        PuzzleCell::Normal {
            connections: dirs(true, true, false, false),
        },
    );
    let _ = grid.insert(
        GridIndex::new(2, 1),
        PuzzleCell::Normal {
            connections: dirs(false, true, true, false),
        },
    );
    let _ = grid.insert(
        GridIndex::new(2, 2),
        PuzzleCell::Normal {
            connections: dirs(false, false, true, true),
        },
    );
    let _ = grid.insert(
        GridIndex::new(2, 3),
        PuzzleCell::Normal {
            connections: dirs(true, false, false, true),
        },
    );
    let _ = grid.insert(
        GridIndex::new(2, 4),
        PuzzleCell::Source {
            connections: dirs(true, true, false, false),
            source: Color::Green,
        },
    );

    let _ = grid.insert(
        GridIndex::new(3, 0),
        PuzzleCell::Normal {
            connections: dirs(true, false, true, false),
        },
    );
    let _ = grid.insert(
        GridIndex::new(3, 1),
        PuzzleCell::Normal {
            connections: dirs(false, true, false, true),
        },
    );
    let _ = grid.insert(
        GridIndex::new(3, 2),
        PuzzleCell::Source {
            connections: dirs(true, false, true, false),
            source: Color::Yellow,
        },
    );

    let _ = grid.insert(
        GridIndex::new(4, 0),
        PuzzleCell::Normal {
            connections: dirs(true, true, true, false),
        },
    );
    let _ = grid.insert(
        GridIndex::new(4, 1),
        PuzzleCell::Normal {
            connections: dirs(false, true, true, true),
        },
    );
    let _ = grid.insert(
        GridIndex::new(4, 2),
        PuzzleCell::Normal {
            connections: dirs(true, false, true, true),
        },
    );
    let _ = grid.insert(
        GridIndex::new(4, 3),
        PuzzleCell::Normal {
            connections: dirs(true, true, false, true),
        },
    );
    let _ = grid.insert(
        GridIndex::new(4, 4),
        PuzzleCell::Source {
            connections: dirs(true, true, true, false),
            source: Color::Orange,
        },
    );

    let _ = grid.insert(
        GridIndex::new(5, 0),
        PuzzleCell::Normal {
            connections: dirs(true, true, true, true),
        },
    );
    let _ = grid.insert(
        GridIndex::new(5, 5),
        PuzzleCell::Source {
            connections: dirs(true, true, true, true),
            source: Color::Red,
        },
    );

    let _ = grid.insert(
        GridIndex::new(7, 0),
        PuzzleCell::Intersection {
            connections: ldirs(1, 2, 2, 2),
        },
    );
    let _ = grid.insert(
        GridIndex::new(7, 1),
        PuzzleCell::Intersection {
            connections: ldirs(2, 1, 2, 2),
        },
    );
    let _ = grid.insert(
        GridIndex::new(7, 2),
        PuzzleCell::Intersection {
            connections: ldirs(2, 2, 1, 2),
        },
    );
    let _ = grid.insert(
        GridIndex::new(7, 3),
        PuzzleCell::Intersection {
            connections: ldirs(2, 2, 2, 1),
        },
    );

    let _ = grid.insert(
        GridIndex::new(8, 0),
        PuzzleCell::Intersection {
            connections: ldirs(1, 1, 2, 2),
        },
    );
    let _ = grid.insert(
        GridIndex::new(8, 1),
        PuzzleCell::Intersection {
            connections: ldirs(2, 1, 1, 2),
        },
    );
    let _ = grid.insert(
        GridIndex::new(8, 2),
        PuzzleCell::Intersection {
            connections: ldirs(1, 2, 2, 0),
        },
    );
    let _ = grid.insert(
        GridIndex::new(8, 3),
        PuzzleCell::Intersection {
            connections: ldirs(0, 1, 2, 2),
        },
    );

    let _ = grid.insert(
        GridIndex::new(9, 0),
        PuzzleCell::Intersection {
            connections: ldirs(1, 2, 1, 2),
        },
    );
    let _ = grid.insert(
        GridIndex::new(9, 1),
        PuzzleCell::Intersection {
            connections: ldirs(1, 2, 0, 2),
        },
    );
    let _ = grid.insert(
        GridIndex::new(9, 2),
        PuzzleCell::Intersection {
            connections: ldirs(2, 1, 2, 0),
        },
    );
    let _ = grid.insert(
        GridIndex::new(9, 4),
        PuzzleCell::Intersection {
            connections: ldirs(2, 2, 2, 2),
        },
    );
    assert(grid@ =~= debug_puzzle_cells());
    Puzzle::new(grid, 4, GridIndex { x: 0, y: 0 })
}

} // verus!
