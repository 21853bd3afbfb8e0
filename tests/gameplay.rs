use swap_puzzle::{
    dirs, fallback_puzzle, ldirs, Cell, CellData, Color, ColorSet, Direction, Grid, GridIndex, GridSize,
    GridSolveState, LayerConnection, PlayingPuzzle, Puzzle, PuzzleCell, PuzzleSolveState, Rotation,
};

fn idx(x: usize, y: usize) -> GridIndex {
    GridIndex::new(x, y)
}

fn layers_of(p: &PlayingPuzzle) -> Vec<(GridIndex, Vec<(Vec<Direction>, Vec<Color>)>, Option<Color>)> {
    p.iter_cells()
        .into_iter()
        .map(|(i, c)| {
            let layers = c
                .iter_layers()
                .into_iter()
                .map(|l| (l.connections.iter_set(), l.fill.iter()))
                .collect();
            (i, layers, c.source())
        })
        .collect()
}

#[test]
fn fallback_starts_unconnected_and_one_swap_solves_it() {
    let mut p = PlayingPuzzle::play(fallback_puzzle());
    assert_eq!(p.swap_limit(), 1);
    assert_eq!(p.is_solved(), PuzzleSolveState::NotAllConnected);
    let rec = p.try_swap(idx(0, 0), idx(1, 0));
    assert!(rec.is_some());
    let rec = rec.unwrap();
    assert_eq!(rec.a_rotation, Rotation::Identity);
    assert_eq!(rec.b_rotation, Rotation::Identity);
    assert_eq!(p.swaps_made(), 1);
    assert_eq!(p.is_solved(), PuzzleSolveState::Solved);
    let moved = p.grid().get(idx(1, 0)).unwrap();
    assert_eq!(moved.source(), Some(Color::Purple));
    assert!(moved.get_layer(0).unwrap().connections.contains(Direction::W));
    let plain = p.grid().get(idx(0, 0)).unwrap();
    assert!(plain.has_color_in_any_layer(Color::Purple));
}

#[test]
fn swap_then_undo_gives_back_the_same_state() {
    let mut p = PlayingPuzzle::play(fallback_puzzle());
    let before = layers_of(&p);
    let rec = p.try_swap(idx(0, 0), idx(1, 0)).unwrap();
    assert_ne!(layers_of(&p), before);
    let undone = p.try_undo().unwrap();
    assert_eq!(undone, rec);
    assert_eq!(layers_of(&p), before);
    assert_eq!(p.swaps_made(), 0);
    assert_eq!(p.try_undo(), None);
}

#[test]
fn swap_of_a_cell_with_itself_or_an_empty_position_is_refused() {
    let mut p = PlayingPuzzle::play(fallback_puzzle());
    let before = layers_of(&p);
    assert_eq!(p.try_swap(idx(0, 0), idx(0, 0)), None);
    assert_eq!(p.try_swap(idx(0, 0), idx(5, 5)), None);
    assert_eq!(layers_of(&p), before);
    assert_eq!(p.swaps_made(), 0);
}

#[test]
fn too_many_swaps_comes_first() {
    let mut p = PlayingPuzzle::play(fallback_puzzle());
    assert!(p.try_swap(idx(0, 0), idx(1, 0)).is_some());
    assert!(p.try_swap(idx(0, 0), idx(1, 0)).is_some());
    assert_eq!(p.swaps_made(), 2);
    assert_eq!(p.is_solved(), PuzzleSolveState::TooManySwaps);
}

#[test]
fn two_separate_sources_of_one_color_are_a_duplicate_section() {
    let mut grid = Grid::with_size(GridSize::new(3, 1));
    grid.insert(idx(0, 0), PuzzleCell::Source { connections: dirs(false, false, false, false), source: Color::Blue })
        .unwrap();
    grid.insert(idx(2, 0), PuzzleCell::Source { connections: dirs(false, false, false, false), source: Color::Blue })
        .unwrap();
    let p = PlayingPuzzle::play(Puzzle::new(grid, 1, idx(0, 0)));
    assert_eq!(p.is_solved(), PuzzleSolveState::DuplicateColorSection);
}

#[test]
fn two_connected_sources_of_one_color_are_solved() {
    let mut grid = Grid::with_size(GridSize::new(3, 1));
    grid.insert(idx(0, 0), PuzzleCell::Source { connections: dirs(true, false, false, false), source: Color::Blue })
        .unwrap();
    grid.insert(idx(1, 0), PuzzleCell::Normal { connections: dirs(true, false, true, false) }).unwrap();
    grid.insert(idx(2, 0), PuzzleCell::Source { connections: dirs(false, false, true, false), source: Color::Blue })
        .unwrap();
    let p = PlayingPuzzle::play(Puzzle::new(grid, 1, idx(0, 0)));
    assert_eq!(p.is_solved(), PuzzleSolveState::Solved);
}

#[test]
fn unfilled_and_double_filled_grids() {
    let mut grid = Grid::with_size(GridSize::new(2, 1));
    grid.insert(idx(0, 0), PuzzleCell::Normal { connections: dirs(false, false, false, false) }).unwrap();
    let p = PlayingPuzzle::play(Puzzle::new(grid, 1, idx(0, 0)));
    assert_eq!(p.is_solved(), PuzzleSolveState::NotAllFilled);

    let mut grid = Grid::with_size(GridSize::new(2, 1));
    grid.insert(idx(0, 0), PuzzleCell::Source { connections: dirs(true, false, false, false), source: Color::Blue })
        .unwrap();
    grid.insert(idx(1, 0), PuzzleCell::Source { connections: dirs(false, false, true, false), source: Color::Green })
        .unwrap();
    let p = PlayingPuzzle::play(Puzzle::new(grid, 1, idx(0, 0)));
    assert_eq!(p.is_solved(), PuzzleSolveState::DoubleFilled);
    let cell = p.grid().get(idx(0, 0)).unwrap();
    assert_eq!(cell.get_layer(0).unwrap().fill.len(), 2);
}

#[test]
fn solved_state_does_not_change_between_queries() {
    let mut p = PlayingPuzzle::play(fallback_puzzle());
    p.try_swap(idx(0, 0), idx(1, 0)).unwrap();
    assert_eq!(p.is_solved(), PuzzleSolveState::Solved);
    assert_eq!(p.is_solved(), PuzzleSolveState::Solved);
    assert_eq!(p.grid().is_solved(), GridSolveState::Solved);
}

#[test]
fn filling_twice_gives_the_same_fills() {
    let p = PlayingPuzzle::play(swap_puzzle::debug_puzzle());
    let mut grid: Grid<Cell> = p.grid().cloned();
    let first = grid.iter_layers();
    grid.fill();
    let second = grid.iter_layers();
    assert_eq!(first, second);
    grid.fill();
    assert_eq!(grid.iter_layers(), second);
}

fn crossing_puzzle() -> PlayingPuzzle {
    let mut grid = Grid::with_size(GridSize::new(3, 3));
    grid.insert(idx(1, 1), PuzzleCell::Intersection { connections: ldirs(1, 2, 1, 2) }).unwrap();
    grid.insert(idx(0, 1), PuzzleCell::Source { connections: dirs(true, false, false, false), source: Color::Orange })
        .unwrap();
    grid.insert(idx(2, 1), PuzzleCell::Normal { connections: dirs(false, false, true, false) }).unwrap();
    grid.insert(idx(1, 0), PuzzleCell::Source { connections: dirs(false, false, false, true), source: Color::Purple })
        .unwrap();
    grid.insert(idx(1, 2), PuzzleCell::Normal { connections: dirs(false, true, false, false) }).unwrap();
    PlayingPuzzle::play(Puzzle::new(grid, 2, idx(1, 1)))
}

#[test]
fn intersection_layers_fill_independently() {
    let p = crossing_puzzle();
    let center = p.grid().get(idx(1, 1)).unwrap();
    assert_eq!(center.get_layer_count(), 2);
    assert_eq!(center.get_layer(0).unwrap().fill.iter(), vec![Color::Orange]);
    assert_eq!(center.get_layer(1).unwrap().fill.iter(), vec![Color::Purple]);
    assert_eq!(p.is_solved(), PuzzleSolveState::Solved);
}

#[test]
fn swapped_intersection_turns_both_layers_together() {
    let mut p = crossing_puzzle();
    let rec = p.try_swap(idx(1, 1), idx(2, 1)).unwrap();
    assert_eq!(rec.a_rotation, Rotation::CounterClockwise);
    assert_eq!(rec.b_rotation, Rotation::CounterClockwise);
    let moved = p.grid().get(idx(2, 1)).unwrap();
    assert_eq!(moved.get_layer(0).unwrap().connections.iter_set(), vec![Direction::N, Direction::S]);
    assert_eq!(moved.get_layer(1).unwrap().connections.iter_set(), vec![Direction::E, Direction::W]);
    let other = p.grid().get(idx(1, 1)).unwrap();
    assert_eq!(other.get_layer(0).unwrap().connections.iter_set(), vec![Direction::S]);
    // The orange source now opens toward a cell that no longer opens back.
    assert_eq!(p.is_solved(), PuzzleSolveState::NotAllConnected);
    p.try_undo().unwrap();
    assert_eq!(p.is_solved(), PuzzleSolveState::Solved);
}

#[test]
fn swap_needs_the_swap_color_and_no_stop_color() {
    let plain = Cell::new(PuzzleCell::Source { connections: dirs(true, false, false, false), source: Color::Blue });
    let other = Cell::new(PuzzleCell::Source { connections: dirs(true, false, false, false), source: Color::Green });
    assert!(!Cell::can_swap(&plain, &other));
    let swap = Cell::new(PuzzleCell::Source { connections: dirs(true, false, false, false), source: Color::Purple });
    assert!(Cell::can_swap(&swap, &other));
    assert!(Cell::can_swap(&other, &swap));
    let stop = Cell::new(PuzzleCell::Source { connections: dirs(true, false, false, false), source: Color::Red });
    assert!(!Cell::can_swap(&swap, &stop));
    let mut both = swap;
    both.add_color(Color::STOP, true, false);
    assert!(!Cell::can_swap(&both, &other));
}

#[test]
fn rotation_follows_the_rotating_colors() {
    let mut c = Cell::new(PuzzleCell::Source { connections: dirs(true, false, false, false), source: Color::Orange });
    assert_eq!(c.rotation_for_fill(), Rotation::CounterClockwise);
    c.add_color(Color::Yellow, true, false);
    assert_eq!(c.rotation_for_fill(), Rotation::Identity);
    let y = Cell::new(PuzzleCell::Source { connections: dirs(true, false, false, false), source: Color::Yellow });
    assert_eq!(y.rotation_for_fill(), Rotation::Clockwise);
    let mut turned = y;
    assert_eq!(turned.rotate_by_fill(), Rotation::Clockwise);
    assert_eq!(turned.get_layer(0).unwrap().connections.iter_set(), vec![Direction::S]);
    let none = Cell::new(PuzzleCell::Normal { connections: dirs(true, false, false, false) });
    assert_eq!(none.rotation_for_fill(), Rotation::Identity);
}

#[test]
fn cells_convert_to_and_from_their_static_form() {
    let pc = PuzzleCell::Intersection { connections: ldirs(1, 2, 1, 0) };
    let c = Cell::new(pc);
    assert_eq!(c.total_connections(), 3);
    assert_eq!(pc.total_connections(), 3);
    assert_eq!(c.to_puzzle_cell(), pc);
    assert_eq!(c.source(), None);
    assert_eq!(c.get_layer_for_direction(Direction::N).unwrap().0, 1);
    assert_eq!(c.get_layer_for_direction(Direction::W).unwrap().0, 0);
    assert!(c.get_layer_for_direction(Direction::S).is_none());
    assert_eq!(pc.iter_layers(), vec![dirs(true, false, true, false), dirs(false, true, false, false)]);
    let src = PuzzleCell::Source { connections: dirs(false, true, false, true), source: Color::Green };
    let c = Cell::new(src);
    assert_eq!(c.to_puzzle_cell(), src);
    assert_eq!(src.source(), Some(Color::Green));
    assert_eq!(c.get_layer(0).unwrap().fill, ColorSet::singleton(Color::Green));
    assert!(c.get_layer(1).is_none());
    match c.data {
        CellData::Normal { source, .. } => assert_eq!(source, Some(Color::Green)),
        CellData::Intersection { .. } => panic!("a source is a single-layer cell"),
    }
    let mut cleared = c;
    cleared.clear_fill();
    assert!(cleared.get_layer(0).unwrap().fill.is_empty());
}

#[test]
fn layer_connection_numbers() {
    let m = ldirs(0, 1, 2, 3);
    assert_eq!(*m.get(Direction::E), LayerConnection::Disconnected);
    assert_eq!(*m.get(Direction::N), LayerConnection::Layer0);
    assert_eq!(*m.get(Direction::W), LayerConnection::Layer1);
    assert_eq!(*m.get(Direction::S), LayerConnection::Layer1);
}

#[test]
fn fixed_puzzles_are_well_formed() {
    let t = swap_puzzle::test_puzzle();
    assert_eq!(t.swap_limit(), 4);
    assert_eq!(t.start().size(), GridSize::new(1, 4));
    assert_eq!(t.start().len(), 4);
    let d = swap_puzzle::debug_puzzle();
    assert_eq!(d.start().size(), GridSize::new(10, 6));
    assert_eq!(d.hint(), idx(0, 0));
    let f = fallback_puzzle();
    assert_eq!(f.hint(), idx(1, 0));
    let p = PlayingPuzzle::play(t);
    assert_eq!(p.size(), GridSize::new(1, 4));
    assert!(p.index_has_cell(idx(0, 3)));
    assert!(!p.index_has_cell(idx(1, 3)));
}
