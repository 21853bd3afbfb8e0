use swap_puzzle::{
    get_random_settings, Odds, SettingsConfig, chance, find_solution, generate_puzzle, Color, ColorSet, Direction, DirectionMap, DirectionMapData, DirectionSet,
    GameGridIndex, GeneratorSettings, Grid, GridIndex, GridSize, IndexOutOfSize, PlayingPuzzle, PuzzleCell,
    PuzzleSolveState, Rotation, SourceSettings, CHANCE_SCALE,
};

#[test]
fn directions_invert_and_rotate() {
    assert_eq!(Direction::E.inverse(), Direction::W);
    assert_eq!(Direction::N.inverse(), Direction::S);
    assert_eq!(Direction::E.rotated(Rotation::CounterClockwise), Direction::N);
    assert_eq!(Direction::N.rotated(Rotation::Clockwise), Direction::E);
    assert_eq!(Direction::W.rotated(Rotation::Half), Direction::E);
    assert_eq!(Direction::S.rotated(Rotation::Identity), Direction::S);
}

#[test]
fn rotations_compose() {
    assert_eq!(Rotation::CounterClockwise.inverse(), Rotation::Clockwise);
    assert_eq!(Rotation::Half.inverse(), Rotation::Half);
    assert_eq!(Rotation::CounterClockwise.rotated(Rotation::CounterClockwise), Rotation::Half);
    assert_eq!(Rotation::CounterClockwise.rotated(Rotation::Clockwise), Rotation::Identity);
    assert_eq!(Rotation::Half.rotated(Rotation::Half), Rotation::Identity);
    assert_eq!(Rotation::Half.rotated(Rotation::Clockwise), Rotation::CounterClockwise);
    assert_eq!(Rotation::Identity.rotated(Rotation::Clockwise), Rotation::Clockwise);
}

#[test]
fn direction_sets() {
    let mut s = DirectionSet::empty();
    assert!(s.is_empty());
    assert!(!s.insert(Direction::N));
    assert!(s.insert(Direction::N));
    s.insert(Direction::W);
    assert_eq!(s.len(), 2);
    assert_eq!(s.iter_set(), vec![Direction::N, Direction::W]);
    assert!(s.remove(Direction::N));
    assert!(!s.contains(Direction::N));
    assert_eq!(DirectionSet::from_iter(&[Direction::S, Direction::E, Direction::S]).iter_set(), vec![
        Direction::E,
        Direction::S
    ]);
    let r = DirectionSet::from_iter(&[Direction::E]).rotated(Rotation::CounterClockwise);
    assert_eq!(r.iter_set(), vec![Direction::N]);
}

#[test]
fn direction_maps() {
    let m = DirectionMap::new(DirectionMapData { e: 1u8, n: 2, w: 3, s: 4 });
    assert_eq!(m.iter(), vec![(Direction::E, 1), (Direction::N, 2), (Direction::W, 3), (Direction::S, 4)]);
    let turned = m.rotated(Rotation::Clockwise);
    assert_eq!(*turned.get(Direction::S), 1);
    assert_eq!(*turned.get(Direction::E), 2);
    let doubled = m.map(|v: u8| v as u16 * 2);
    assert_eq!(*doubled.get(Direction::W), 6);
    let same = DirectionMap::new_with_initial(|| 7u8);
    assert_eq!(same, DirectionMap::new_with_repeat(7u8));
}

#[test]
fn color_bits_and_sets() {
    assert_eq!(Color::Red.bit(), 0);
    assert_eq!(Color::Purple.bit(), 5);
    assert_eq!(Color::Blue.index(), 4);
    assert_eq!(Color::SWAP, Color::Purple);
    assert_eq!(Color::STOP, Color::Red);
    assert_eq!(Color::CCW, Color::Orange);
    assert_eq!(Color::CW, Color::Yellow);
    let mut s = ColorSet::empty();
    assert!(s.is_empty());
    s.insert(Color::Green);
    s.insert(Color::Red);
    assert_eq!(s.iter(), vec![Color::Red, Color::Green]);
    s.remove(Color::Red);
    assert_eq!(s.iter(), vec![Color::Green]);
    assert!(s.contains(Color::Green));
    let u = s.union(ColorSet::singleton(Color::Blue));
    assert_eq!(u.len(), 2);
    assert!(u.contains(Color::Blue) && u.contains(Color::Green));
    s.remove(Color::Green);
    assert!(s.is_empty());
}

#[test]
fn indices_move_and_sizes_contain() {
    let i = GridIndex::new(0, 0);
    assert_eq!(i.moved_in(Direction::N), None);
    assert_eq!(i.moved_in(Direction::W), None);
    assert_eq!(i.moved_in(Direction::E), Some(GridIndex::new(1, 0)));
    assert_eq!(i.moved_in(Direction::S), Some(GridIndex::new(0, 1)));
    assert_eq!(GridIndex::new(usize::MAX, 0).moved_in(Direction::E), None);
    let size = GridSize::new(2, 3);
    assert!(size.contains(GridIndex::new(1, 2)));
    assert!(!size.contains(GridIndex::new(2, 0)));
    assert_eq!(size.indices().len(), 6);
    assert_eq!(size.indices()[3], GridIndex::new(1, 1));
}

#[test]
fn grids_insert_remove_and_swap() {
    let mut g: Grid<u8> = Grid::with_size(GridSize::new(2, 2));
    assert_eq!(g.len(), 0);
    assert_eq!(g.insert(GridIndex::new(1, 1), 5), Ok(None));
    assert_eq!(g.insert(GridIndex::new(1, 1), 6), Ok(Some(5)));
    assert_eq!(g.insert(GridIndex::new(2, 0), 1), Err(IndexOutOfSize));
    assert_eq!(g.remove(GridIndex::new(0, 5)), Err(IndexOutOfSize));
    assert_eq!(g.get(GridIndex::new(1, 1)), Some(&6));
    assert!(g.contains(GridIndex::new(1, 1)));
    g.insert(GridIndex::new(0, 0), 9).unwrap();
    g.swap(GridIndex::new(0, 0), GridIndex::new(1, 0));
    assert_eq!(g.get(GridIndex::new(1, 0)), Some(&9));
    assert_eq!(g.get(GridIndex::new(0, 0)), None);
    assert_eq!(g.len(), 2);
    assert_eq!(g.indicies(), vec![GridIndex::new(1, 0), GridIndex::new(1, 1)]);
    assert_eq!(g.iter(), vec![(GridIndex::new(1, 0), 9), (GridIndex::new(1, 1), 6)]);
    assert_eq!(g.get_neighbor(GridIndex::new(1, 0), Direction::S), Some((GridIndex::new(1, 1), 6)));
    assert_eq!(g.get_neighbor(GridIndex::new(1, 0), Direction::W), None);
    let n = g.iter_neighbors(GridIndex::new(0, 0));
    assert_eq!(n, vec![(GridIndex::new(1, 0), Direction::E, 9)]);
    assert_eq!(g.remove(GridIndex::new(1, 0)), Ok(Some(9)));
    assert_eq!(g.len(), 1);
    assert_eq!(g.width(), 2);
    assert_eq!(g.height(), 2);
}

#[test]
fn connected_layers_are_walked_in_full() {
    let mut grid = Grid::with_size(GridSize::new(3, 1));
    grid.insert(GridIndex::new(0, 0), PuzzleCell::Source {
        connections: swap_puzzle::dirs(true, false, false, false),
        source: Color::Blue,
    })
    .unwrap();
    grid.insert(GridIndex::new(1, 0), PuzzleCell::Normal { connections: swap_puzzle::dirs(true, false, true, false) })
        .unwrap();
    grid.insert(GridIndex::new(2, 0), PuzzleCell::Normal { connections: swap_puzzle::dirs(false, false, true, false) })
        .unwrap();
    let game = Grid::from_puzzle_grid(grid);
    let start = GameGridIndex { grid_index: GridIndex::new(0, 0), layer_index: 0 };
    let reached = game.all_connected(start).unwrap();
    assert_eq!(reached.len(), 3);
    assert!(reached.contains(&GameGridIndex { grid_index: GridIndex::new(2, 0), layer_index: 0 }));
    let next = game.iter_connected_layers(start).unwrap();
    assert_eq!(next.len(), 1);
    assert_eq!(next[0].0.grid_index, GridIndex::new(1, 0));
    assert!(game.all_connected(GameGridIndex { grid_index: GridIndex::new(0, 0), layer_index: 1 }).is_none());
    assert_eq!(game.iter_layers().len(), 3);
    assert_eq!(game.iter_layers_at(GridIndex::new(1, 0)).unwrap().len(), 1);
    assert!(game.get_layer(start).unwrap().fill.contains(Color::Blue));
    assert!(game.get_layer(GameGridIndex { grid_index: GridIndex::new(2, 0), layer_index: 0 })
        .unwrap()
        .fill
        .contains(Color::Blue));
}

#[test]
fn chance_extremes() {
    for _ in 0..50 {
        assert!(!chance(0));
        assert!(chance(CHANCE_SCALE));
    }
}

fn small_settings() -> GeneratorSettings {
    let mut s = GeneratorSettings::default();
    s.size = GridSize::new(2, 3);
    s.swap_count = 2;
    s.missing = 0;
    s
}

#[test]
fn default_settings() {
    let s = GeneratorSettings::default();
    assert_eq!(s.size, GridSize::new(3, 3));
    assert_eq!(s.swap_count, 4);
    assert_eq!(s.missing_chance, CHANCE_SCALE / 10);
    assert_eq!(s.stop_sources, SourceSettings::Never);
    assert_eq!(s.check_solution_len, 1);
    assert_eq!(s.check_solution_retries, 3);
}

#[test]
fn generated_puzzles_are_solvable_within_their_limit() {
    for _ in 0..3 {
        let settings = small_settings();
        let puzzle = generate_puzzle(&settings);
        assert!(puzzle.swap_limit() >= 1 && puzzle.swap_limit() <= settings.swap_count);
        assert_eq!(puzzle.start().size(), settings.size);
        let solution = find_solution(&puzzle, puzzle.swap_limit());
        assert!(solution.is_some());
        let solution = solution.unwrap();
        let mut play = PlayingPuzzle::play(puzzle);
        for rec in solution.iter() {
            assert!(play.try_swap(rec.a, rec.b).is_some());
        }
        assert_eq!(play.is_solved(), PuzzleSolveState::Solved);
    }
}

#[test]
fn generation_with_stop_and_rotating_sources() {
    let mut settings = small_settings();
    settings.size = GridSize::new(3, 2);
    settings.stop_sources = SourceSettings::Maybe;
    settings.rotator_sources = SourceSettings::Definitely;
    settings.max_intersections = 1;
    settings.intersection_chance = CHANCE_SCALE / 2;
    let puzzle = generate_puzzle(&settings);
    assert!(puzzle.swap_limit() >= 1 && puzzle.swap_limit() <= settings.swap_count);
    assert!(find_solution(&puzzle, puzzle.swap_limit()).is_some());
}

#[test]
fn solver_finds_the_fallback_solution() {
    let p = swap_puzzle::fallback_puzzle();
    assert_eq!(find_solution(&p, 0), None);
    let sol = find_solution(&p, 1).unwrap();
    assert_eq!(sol.len(), 1);
    assert_eq!(sol[0].a, GridIndex::new(0, 0));
    assert_eq!(sol[0].b, GridIndex::new(1, 0));
}

#[test]
fn odds_land_on_the_first_entry_whose_running_total_reaches_the_draw() {
    let mut odds: Odds<char> = Odds::new();
    assert_eq!(odds.get(5), None);
    odds.add('a', 3);
    odds.add('b', 6);
    odds.add('c', 1);
    assert_eq!(odds.get(0), Some('a'));
    assert_eq!(odds.get(3), Some('a'));
    assert_eq!(odds.get(4), Some('b'));
    assert_eq!(odds.get(9), Some('b'));
    assert_eq!(odds.get(10), Some('a'));
    assert_eq!(odds.get(19), Some('b'));
    assert!(odds.pick().is_some());
}

#[test]
fn random_settings_stay_in_their_ranges() {
    for _ in 0..20 {
        let s = get_random_settings();
        let area = s.size.width * s.size.height;
        assert!((4..=25).contains(&area));
        assert!(s.swap_count >= 1);
        assert!(s.missing < area);
        assert!(s.extra_source_chance >= 75000 && s.extra_source_chance < 200000);
        assert!(s.intersection_chance < 800000);
        assert!(s.max_intersections < area * 2 / 3);
        assert!(s.knockout_loop_chance > 740000 && s.knockout_loop_chance <= 990000);
        assert_eq!(s.check_solution_len, ((s.swap_count - 1) as usize).min(3));
    }
    let mut custom = GeneratorSettings::default();
    custom.swap_count = 7;
    let config = SettingsConfig { custom_override: true, custom_settings: custom };
    assert_eq!(config.get_current_settings().swap_count, 7);
}

#[test]
fn values_change_in_place() {
    let mut g: Grid<u8> = Grid::with_size(GridSize::new(2, 1));
    g.insert(GridIndex::new(0, 0), 1).unwrap();
    *g.get_mut(GridIndex::new(0, 0)).unwrap() = 4;
    assert_eq!(g.get(GridIndex::new(0, 0)), Some(&4));
    assert!(g.get_mut(GridIndex::new(1, 0)).is_none());
    assert!(g.get_mut(GridIndex::new(3, 0)).is_none());
    let mut cell = swap_puzzle::Cell::new(PuzzleCell::Normal { connections: swap_puzzle::dirs(true, false, false, false) });
    cell.get_layer_mut(0).unwrap().fill.insert(Color::Green);
    assert!(cell.has_color_in_any_layer(Color::Green));
    assert!(cell.get_layer_mut(1).is_none());
}

#[test]
fn neighbors_in_chosen_directions() {
    let mut g: Grid<u8> = Grid::with_size(GridSize::new(3, 3));
    g.insert(GridIndex::new(1, 0), 1).unwrap();
    g.insert(GridIndex::new(0, 1), 2).unwrap();
    g.insert(GridIndex::new(2, 1), 3).unwrap();
    let n = g.iter_neighbors_for(GridIndex::new(1, 1), &[Direction::W, Direction::S, Direction::N]);
    assert_eq!(n, vec![(GridIndex::new(0, 1), Direction::W, 2), (GridIndex::new(1, 0), Direction::N, 1)]);
}

#[test]
fn size_walk_goes_row_by_row() {
    let mut walk = GridSize::new(2, 2).into_iter();
    let mut seen = Vec::new();
    while let Some(i) = walk.next() {
        seen.push(i);
    }
    assert_eq!(seen, vec![GridIndex::new(0, 0), GridIndex::new(1, 0), GridIndex::new(0, 1), GridIndex::new(1, 1)]);
    assert_eq!(GridSize::new(0, 3).into_iter().next(), None);
}

#[test]
fn cell_ids_count_up_from_one() {
    let mut ids = swap_puzzle::CellIdProvider::new();
    assert_eq!(ids.next().get(), 1);
    assert_eq!(ids.next().get(), 2);
    assert_ne!(ids.next(), ids.next());
}

#[test]
fn solver_gives_the_empty_solution_for_a_solved_start_and_a_shortest_one_otherwise() {
    let mut grid = Grid::with_size(GridSize::new(2, 1));
    grid.insert(GridIndex::new(0, 0), PuzzleCell::Source {
        connections: swap_puzzle::dirs(true, false, false, false),
        source: Color::Purple,
    })
    .unwrap();
    grid.insert(GridIndex::new(1, 0), PuzzleCell::Normal { connections: swap_puzzle::dirs(false, false, true, false) })
        .unwrap();
    let solved = swap_puzzle::Puzzle::new(grid, 2, GridIndex::new(0, 0));
    assert_eq!(find_solution(&solved, 0), Some(vec![]));
    assert_eq!(find_solution(&solved, 3), Some(vec![]));
    let sol = find_solution(&swap_puzzle::fallback_puzzle(), 4).unwrap();
    assert_eq!(sol.len(), 1);
}

#[test]
fn generated_hint_is_a_position_of_a_first_move() {
    let mut settings = GeneratorSettings::default();
    settings.size = GridSize::new(2, 3);
    settings.swap_count = 1;
    settings.missing = 0;
    let puzzle = generate_puzzle(&settings);
    assert_eq!(puzzle.swap_limit(), 1);
    let sol = find_solution(&puzzle, 1).unwrap();
    assert_eq!(sol.len(), 1);
    let hint = puzzle.hint();
    assert!(puzzle.start().get(hint).is_some());
}
