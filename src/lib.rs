//! A grid-based connection puzzle: colored sources spread their color along
//! connected cell layers, and the player swaps cells to connect everything.

pub mod cell;
pub mod cell_id;
pub mod color;
pub mod debug_puzzle;
mod connections;
pub mod direction;
pub mod direction_map;
pub mod game_grid;
pub mod generator;
pub mod grid;
pub mod puzzle;
mod random;
pub mod settings_config;
mod solutions;
pub mod solver;

pub use cell_id::{CellId, CellIdProvider};
pub use cell::{Cell, CellData, CellLayer, LayerConnection, PuzzleCell, SwapRecord};
pub use color::{Color, ColorSet};
pub use debug_puzzle::{debug_puzzle, dirs, ldirs, test_puzzle};
pub use direction::{Direction, Rotation};
pub use direction_map::{DirectionMap, DirectionMapData, DirectionSet};
pub use game_grid::{GameGridIndex, GridSolveState};
pub use generator::{generate_puzzle, GeneratorSettings, SourceSettings};
pub use grid::{Grid, GridIndex, GridSize, GridSizeIter, IndexOutOfSize};
pub use puzzle::{fallback_puzzle, PlayingPuzzle, Puzzle, PuzzleSolveState};
pub use random::{chance, CHANCE_SCALE};
pub use settings_config::{get_random_grid_data, get_random_settings, GridData, Odds, SettingsConfig};
pub use solver::find_solution;
