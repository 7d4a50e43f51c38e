use rand::rngs::StdRng;
use rand::SeedableRng;
use wfc::{CellState, ConstructionError, Direction, Grid, Raster, StepResult, TileSet};

const DIRECTIONS: [Direction; 4] = [Direction::North, Direction::East, Direction::South, Direction::West];

fn raster(width: usize, height: usize, pixels: Vec<u32>) -> Raster {
    Raster { width, height, pixels }
}

fn uniform_raster(width: usize, height: usize, color: u32) -> Raster {
    raster(width, height, vec![color; width * height])
}

fn states(grid: &Grid) -> Vec<CellState> {
    (0..grid.width() * grid.height()).map(|i| grid.cell_state(i)).collect()
}

fn self_only_rules(tiles: usize) -> Vec<(usize, Direction, usize)> {
    let mut rules = Vec::new();
    for t in 0..tiles {
        for d in DIRECTIONS {
            rules.push((t, d, t));
        }
    }
    rules
}

#[test]
fn window_as_large_as_image_is_rejected() {
    let image = uniform_raster(3, 3, 7);
    assert_eq!(TileSet::new(&image, 3, 3).err(), Some(ConstructionError::TileWindowTooLarge));
    assert_eq!(TileSet::new(&image, 2, 3).err(), Some(ConstructionError::TileWindowTooLarge));
    assert_eq!(TileSet::new(&image, 4, 1).err(), Some(ConstructionError::TileWindowTooLarge));
}

#[test]
fn malformed_inputs_are_rejected() {
    let short = raster(3, 3, vec![1; 8]);
    assert_eq!(TileSet::new(&short, 1, 1).err(), Some(ConstructionError::PixelCountMismatch));
    let image = uniform_raster(3, 3, 1);
    assert_eq!(TileSet::new(&image, 0, 1).err(), Some(ConstructionError::EmptyTileWindow));
    assert_eq!(TileSet::from_adjacency(0, &vec![]).err(), Some(ConstructionError::EmptyTileSet));
    assert_eq!(
        TileSet::from_adjacency(2, &vec![(0, Direction::East, 2)]).err(),
        Some(ConstructionError::UnknownTile)
    );
}

#[test]
fn identical_windows_merge_into_one_weighted_tile() {
    let image = uniform_raster(4, 4, 0x00ff_00ff);
    let tiles = TileSet::new(&image, 2, 2).unwrap();
    assert_eq!(tiles.len(), 1);
    assert_eq!(tiles.frequency(0), 16);
    assert_eq!(tiles.pixels(0), &vec![0x00ff_00ff; 4]);
    for d in DIRECTIONS {
        assert_eq!(tiles.neighbors(0, d), vec![0]);
    }
}

#[test]
fn stripes_give_two_alternating_tiles() {
    let (a, b) = (10, 20);
    let image = raster(4, 2, vec![a, b, a, b, a, b, a, b]);
    let tiles = TileSet::new(&image, 2, 1).unwrap();
    assert_eq!(tiles.len(), 2);
    assert_eq!(tiles.pixels(0), &vec![a, b]);
    assert_eq!(tiles.pixels(1), &vec![b, a]);
    assert_eq!(tiles.frequency(0), 4);
    assert_eq!(tiles.frequency(1), 4);
    assert_eq!(tiles.neighbors(0, Direction::East), vec![1]);
    assert_eq!(tiles.neighbors(0, Direction::West), vec![1]);
    assert_eq!(tiles.neighbors(1, Direction::East), vec![0]);
    assert_eq!(tiles.neighbors(0, Direction::North), vec![0, 1]);
    assert_eq!(tiles.neighbors(1, Direction::South), vec![0, 1]);
    assert!(tiles.allows(0, Direction::East, 1));
    assert!(!tiles.allows(0, Direction::East, 0));
}

#[test]
fn windows_wrap_around_the_image_edges() {
    // 3x3 image, 2x2 windows: the window at column 2 takes column 0 as its right half.
    let image = raster(3, 3, vec![1, 2, 3, 4, 5, 6, 7, 8, 9]);
    let tiles = TileSet::new(&image, 2, 2).unwrap();
    assert_eq!(tiles.len(), 9);
    assert_eq!(tiles.pixels(0), &vec![1, 2, 4, 5]);
    assert_eq!(tiles.pixels(2), &vec![3, 1, 6, 4]);
    assert_eq!(tiles.pixels(6), &vec![7, 8, 1, 2]);
    // A tile shifted one step east matches the next offset's window.
    assert_eq!(tiles.neighbors(0, Direction::East), vec![1]);
    assert_eq!(tiles.neighbors(0, Direction::South), vec![3]);
    assert_eq!(tiles.neighbors(3, Direction::North), vec![0]);
    assert_eq!(tiles.neighbors(1, Direction::West), vec![0]);
}

#[test]
fn fresh_grid_is_unconstrained() {
    let tiles = TileSet::from_adjacency(3, &self_only_rules(3)).unwrap();
    let grid = Grid::new(tiles, 4, 2);
    assert!(!grid.is_complete());
    for i in 0..8 {
        assert_eq!(grid.cell_state(i), CellState::Undetermined(3));
        assert_eq!(grid.entropy(i), 3);
    }
}

#[test]
fn single_tile_completes_in_one_step_per_cell() {
    let tiles = TileSet::from_adjacency(1, &self_only_rules(1)).unwrap();
    let mut grid = Grid::new(tiles, 3, 2);
    let mut rng = StdRng::seed_from_u64(1);
    for _ in 0..6 {
        assert_eq!(grid.step(&mut rng), StepResult::Advanced);
    }
    assert!(grid.is_complete());
    assert_eq!(grid.step(&mut rng), StepResult::Complete);
    assert!(states(&grid).iter().all(|s| *s == CellState::Resolved(0)));
}

#[test]
fn single_tile_from_an_image_completes() {
    let tiles = TileSet::new(&uniform_raster(5, 4, 3), 2, 2).unwrap();
    let mut grid = Grid::new(tiles, 4, 5);
    let mut rng = StdRng::seed_from_u64(9);
    for _ in 0..20 {
        assert_eq!(grid.step(&mut rng), StepResult::Advanced);
    }
    assert_eq!(grid.step(&mut rng), StepResult::Complete);
    assert!(states(&grid).iter().all(|s| *s == CellState::Resolved(0)));
}

#[test]
fn one_resolution_forces_a_self_compatible_tile_everywhere() {
    let tiles = TileSet::from_adjacency(2, &self_only_rules(2)).unwrap();
    let mut grid = Grid::new(tiles, 2, 2);
    assert_eq!(grid.step_with(0), StepResult::Advanced);
    assert_eq!(grid.cell_state(0), CellState::Resolved(0));
    for i in 1..4 {
        assert_eq!(grid.cell_state(i), CellState::Undetermined(1));
    }
    for _ in 0..3 {
        assert_eq!(grid.step_with(1), StepResult::Advanced);
    }
    assert_eq!(grid.step_with(1), StepResult::Complete);
    assert!(states(&grid).iter().all(|s| *s == CellState::Resolved(0)));
}

#[test]
fn incompatible_ends_leave_the_middle_without_options() {
    let mut rules = Vec::new();
    for t in 0..3 {
        for u in 0..3 {
            rules.push((t, Direction::North, u));
            rules.push((t, Direction::South, u));
            rules.push((0, Direction::East, u));
            rules.push((1, Direction::East, u));
            rules.push((2, Direction::East, u));
            rules.push((1, Direction::West, u));
        }
    }
    rules.push((0, Direction::West, 1));
    rules.push((0, Direction::West, 2));
    let tiles = TileSet::from_adjacency(3, &rules).unwrap();
    let mut grid = Grid::new(tiles, 3, 1);
    assert_eq!(grid.step_with(0), StepResult::Advanced);
    assert_eq!(grid.cell_state(0), CellState::Resolved(0));
    assert_eq!(grid.cell_state(1), CellState::Undetermined(3));
    assert_eq!(grid.cell_state(2), CellState::Undetermined(2));
    assert_eq!(grid.step_with(1), StepResult::Contradiction(1));
    assert_eq!(grid.cell_state(2), CellState::Resolved(2));
    assert_eq!(grid.cell_state(1), CellState::Undetermined(0));
    // A halted grid stays halted.
    assert_eq!(grid.step_with(0), StepResult::Contradiction(1));
    assert_eq!(grid.cell_state(1), CellState::Undetermined(0));
}

#[test]
fn draws_select_options_by_frequency() {
    // Columns a, a, b: one-pixel tiles a (frequency 4) and b (frequency 2).
    let image = raster(3, 2, vec![5, 5, 6, 5, 5, 6]);
    let tiles = TileSet::new(&image, 1, 1).unwrap();
    assert_eq!(tiles.len(), 2);
    assert_eq!(tiles.frequency(0), 4);
    assert_eq!(tiles.frequency(1), 2);
    let expected = [(0, 0), (3, 0), (4, 1), (5, 1), (6, 0), (11, 1)];
    for (draw, tile) in expected {
        let tiles = TileSet::new(&image, 1, 1).unwrap();
        let mut grid = Grid::new(tiles, 1, 1);
        assert_eq!(grid.step_with(draw), StepResult::Advanced);
        assert_eq!(grid.cell_state(0), CellState::Resolved(tile));
    }
}

#[test]
fn lowest_entropy_cell_goes_first() {
    let tiles = TileSet::from_adjacency(2, &self_only_rules(2)).unwrap();
    let mut grid = Grid::new(tiles, 3, 3);
    // Every cell ties, so cell 0 is taken first.
    assert_eq!(grid.step_with(1), StepResult::Advanced);
    assert_eq!(grid.cell_state(0), CellState::Resolved(1));
    assert_eq!(grid.cell_state(4), CellState::Undetermined(1));
    assert_eq!(grid.step_with(0), StepResult::Advanced);
    assert_eq!(grid.cell_state(1), CellState::Resolved(1));
}

#[test]
fn stepping_a_complete_grid_changes_nothing() {
    let tiles = TileSet::from_adjacency(1, &self_only_rules(1)).unwrap();
    let mut grid = Grid::new(tiles, 2, 2);
    let mut rng = StdRng::seed_from_u64(3);
    while grid.step(&mut rng) == StepResult::Advanced {}
    let before = states(&grid);
    assert_eq!(grid.step(&mut rng), StepResult::Complete);
    assert_eq!(grid.step_with(5), StepResult::Complete);
    assert_eq!(states(&grid), before);
}

#[test]
fn same_seed_gives_same_generation() {
    let image = raster(4, 4, vec![1, 2, 1, 3, 2, 1, 3, 1, 1, 3, 1, 2, 3, 1, 2, 1]);
    let run = |seed: u64| {
        let tiles = TileSet::new(&image, 2, 2).unwrap();
        let mut grid = Grid::new(tiles, 6, 5);
        let mut rng = StdRng::seed_from_u64(seed);
        let mut trace = Vec::new();
        loop {
            let r = grid.step(&mut rng);
            trace.push((r, states(&grid)));
            if r != StepResult::Advanced {
                break;
            }
        }
        trace
    };
    assert_eq!(run(42), run(42));
}

#[test]
fn random_steps_resolve_to_known_tiles() {
    let image = raster(4, 4, vec![1, 2, 1, 3, 2, 1, 3, 1, 1, 3, 1, 2, 3, 1, 2, 1]);
    let tiles = TileSet::new(&image, 2, 2).unwrap();
    let count = tiles.len();
    let mut grid = Grid::new(tiles, 5, 5);
    let mut rng = StdRng::seed_from_u64(7);
    assert_ne!(grid.step(&mut rng), StepResult::Complete);
    match grid.cell_state(0) {
        CellState::Resolved(t) => assert!(t < count),
        other => panic!("cell 0 not resolved: {:?}", other),
    }
}
