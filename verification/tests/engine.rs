use game2048::game_state::{Direction, GameState, Tile, TileState};

fn to_grid(from: [usize; 16]) -> Vec<Option<Tile>> {
    let mut to: Vec<Option<Tile>> = Vec::new();
    for v in from.iter() {
        if *v != 0 {
            to.push(Some(Tile::new(*v)));
        } else {
            to.push(None);
        }
    }
    to
}

fn from_grid(cells: Vec<Option<Tile>>) -> [usize; 16] {
    let mut to = [0; 16];
    for (i, c) in cells.iter().enumerate() {
        if let Some(tile) = c {
            to[i] = tile.get_value();
        }
    }
    to
}

fn occupied(gs: &GameState) -> usize {
    gs.cells().iter().filter(|x| x.is_some()).count()
}

#[test]
fn test_basic() {
    let tests: Vec<(&str, [usize; 16], [usize; 16], Vec<Direction>)> = vec![
        (
            "Basic: Left",
            [2, 0, 0, 0, 0, 2, 0, 0, 0, 0, 2, 0, 0, 0, 0, 2],
            [2, 0, 0, 0, 2, 0, 0, 0, 2, 0, 0, 0, 2, 0, 0, 0],
            vec![Direction::Left],
        ),
        (
            "Basic: Right",
            [2, 0, 0, 0, 0, 2, 0, 0, 0, 0, 2, 0, 0, 0, 0, 2],
            [0, 0, 0, 2, 0, 0, 0, 2, 0, 0, 0, 2, 0, 0, 0, 2],
            vec![Direction::Right],
        ),
        (
            "Basic: Up",
            [2, 0, 0, 0, 0, 2, 0, 0, 0, 0, 2, 0, 0, 0, 0, 2],
            [2, 2, 2, 2, 0, 0, 0, 0, 0, 0, 0, 0, 0, 0, 0, 0],
            vec![Direction::Up],
        ),
        (
            "Basic: Down",
            [2, 0, 0, 0, 0, 2, 0, 0, 0, 0, 2, 0, 0, 0, 0, 2],
            [0, 0, 0, 0, 0, 0, 0, 0, 0, 0, 0, 0, 2, 2, 2, 2],
            vec![Direction::Down],
        ),
    ];

    for (name, curr, want, moves) in tests {
        let mut gs = GameState::new(to_grid(curr), false);
        for d in &moves {
            gs.move_tiles(*d);
        }
        assert_eq!(want, from_grid(gs.cells()), "{}", name);
    }
}

#[test]
fn test_merge() {
    let tests: Vec<(&str, [usize; 16], [usize; 16], Vec<Direction>)> = vec![
        (
            "Merge: Basic Merge",
            [2, 2, 0, 0, 0, 0, 0, 0, 0, 0, 0, 0, 0, 0, 0, 0],
            [4, 0, 0, 0, 0, 0, 0, 0, 0, 0, 0, 0, 0, 0, 0, 0],
            vec![Direction::Left],
        ),
        (
            "Merge: Not Merge",
            [2, 0, 0, 0, 0, 0, 0, 0, 4, 0, 0, 0, 0, 0, 0, 0],
            [2, 0, 0, 0, 4, 0, 0, 0, 0, 0, 0, 0, 0, 0, 0, 0],
            vec![Direction::Up],
        ),
        (
            "Merge: Merge Twice",
            [2, 2, 4, 0, 0, 0, 0, 0, 0, 0, 0, 0, 0, 0, 0, 0],
            [0, 0, 0, 8, 0, 0, 0, 0, 0, 0, 0, 0, 0, 0, 0, 0],
            vec![Direction::Left, Direction::Right],
        ),
        (
            "Merge: Merge Twos",
            [2, 2, 2, 2, 0, 2, 2, 2, 0, 0, 2, 2, 0, 0, 0, 2],
            [4, 4, 0, 0, 4, 2, 0, 0, 4, 0, 0, 0, 2, 0, 0, 0],
            vec![Direction::Left],
        ),
    ];

    for (name, curr, want, moves) in tests {
        let mut gs = GameState::new(to_grid(curr), false);
        for d in &moves {
            gs.move_tiles(*d);
        }
        assert_eq!(want, from_grid(gs.cells()), "{}", name);
    }
}

#[test]
fn test_random_tiles() {
    let tests: Vec<(&str, [usize; 16], usize, Vec<Direction>)> = vec![
        (
            "Random Tile: Valid Move",
            [0, 0, 0, 0, 0, 2, 0, 0, 0, 2, 0, 0, 0, 0, 0, 0],
            3,
            vec![Direction::Left],
        ),
        (
            "Random Tile: Invalid Move",
            [0, 0, 0, 0, 2, 0, 0, 0, 2, 0, 0, 0, 0, 0, 0, 0],
            2,
            vec![Direction::Left],
        ),
    ];

    for (name, curr, want, moves) in tests {
        let mut gs = GameState::new(to_grid(curr), true);
        for d in &moves {
            gs.move_tiles(*d);
        }
        assert_eq!(want, occupied(&gs), "{}", name);
    }
}

#[test]
fn test_scenario_left_merge_scores() {
    let mut gs = GameState::new(
        to_grid([2, 2, 0, 0, 0, 0, 0, 0, 0, 0, 0, 0, 0, 0, 0, 0]),
        false,
    );
    gs.move_tiles(Direction::Left);
    assert_eq!(
        [4, 0, 0, 0, 0, 0, 0, 0, 0, 0, 0, 0, 0, 0, 0, 0],
        from_grid(gs.cells())
    );
    assert_eq!(4, gs.score());
    assert!(!gs.is_won());
}

#[test]
fn test_scenario_up_no_merge_scores() {
    let mut gs = GameState::new(
        to_grid([2, 0, 0, 0, 0, 0, 0, 0, 4, 0, 0, 0, 0, 0, 0, 0]),
        false,
    );
    gs.move_tiles(Direction::Up);
    assert_eq!(
        [2, 0, 0, 0, 4, 0, 0, 0, 0, 0, 0, 0, 0, 0, 0, 0],
        from_grid(gs.cells())
    );
    assert_eq!(0, gs.score());
}

#[test]
fn test_scenario_left_then_right_scores() {
    let mut gs = GameState::new(
        to_grid([2, 2, 4, 0, 0, 0, 0, 0, 0, 0, 0, 0, 0, 0, 0, 0]),
        false,
    );
    gs.move_tiles(Direction::Left);
    assert_eq!(4, gs.score());
    gs.move_tiles(Direction::Right);
    assert_eq!(
        [0, 0, 0, 8, 0, 0, 0, 0, 0, 0, 0, 0, 0, 0, 0, 0],
        from_grid(gs.cells())
    );
    assert_eq!(12, gs.score());
}

#[test]
fn test_no_op_move() {
    let board = [2, 4, 8, 16, 0, 0, 0, 0, 0, 0, 0, 0, 0, 0, 0, 0];
    let mut gs = GameState::new(to_grid(board), true);
    gs.move_tiles(Direction::Left);
    assert_eq!(board, from_grid(gs.cells()));
    assert_eq!(0, gs.score());
    assert!(!gs.is_won());
    assert_eq!(4, occupied(&gs));
}

#[test]
fn test_win_latch() {
    let mut gs = GameState::new(
        to_grid([1024, 1024, 0, 0, 0, 0, 0, 0, 0, 0, 0, 0, 0, 0, 0, 0]),
        false,
    );
    gs.move_tiles(Direction::Left);
    assert!(gs.is_won());
    assert_eq!(2048, gs.score());
    let frozen = from_grid(gs.cells());
    gs.move_tiles(Direction::Right);
    assert_eq!(frozen, from_grid(gs.cells()));
    assert_eq!(2048, gs.score());
    gs.move_tiles(Direction::Down);
    assert_eq!(frozen, from_grid(gs.cells()));
}

#[test]
fn test_single_merge_per_move() {
    let mut gs = GameState::new(
        to_grid([4, 4, 4, 4, 0, 0, 0, 0, 0, 0, 0, 0, 0, 0, 0, 0]),
        false,
    );
    gs.move_tiles(Direction::Left);
    assert_eq!(
        [8, 8, 0, 0, 0, 0, 0, 0, 0, 0, 0, 0, 0, 0, 0, 0],
        from_grid(gs.cells())
    );
    assert_eq!(16, gs.score());
}

#[test]
fn test_tile_count_after_spawning_move() {
    let mut gs = GameState::new(
        to_grid([2, 2, 0, 0, 0, 0, 0, 0, 0, 0, 0, 0, 0, 0, 0, 0]),
        true,
    );
    assert_eq!(2, occupied(&gs));
    gs.move_tiles(Direction::Left);
    // the pair merged into one tile, then exactly one tile spawned
    assert_eq!(2, occupied(&gs));
    assert_eq!(4, gs.score());
}

#[test]
fn test_get_tiles_yields_merged_pair() {
    let mut gs = GameState::new(
        to_grid([2, 2, 0, 0, 0, 0, 0, 0, 0, 0, 0, 0, 0, 0, 0, 0]),
        false,
    );
    gs.move_tiles(Direction::Left);
    let tiles = gs.get_tiles();
    assert_eq!(2, tiles.len());
    let (i0, under) = &tiles[0];
    let (i1, merged) = &tiles[1];
    assert_eq!(0, *i0);
    assert_eq!(0, *i1);
    assert_eq!(2, under.get_value());
    assert_eq!(String::new(), under.get_state());
    assert_eq!(4, merged.get_value());
    assert_eq!(" tile-merged".to_string(), merged.get_state());
    assert_eq!(Some(0), merged.get_prev());
}

#[test]
fn test_get_tiles_slide_records_prev() {
    let mut gs = GameState::new(
        to_grid([0, 0, 0, 2, 0, 0, 0, 0, 0, 0, 0, 0, 0, 0, 0, 0]),
        false,
    );
    gs.move_tiles(Direction::Left);
    let tiles = gs.get_tiles();
    assert_eq!(1, tiles.len());
    assert_eq!(0, tiles[0].0);
    assert_eq!(2, tiles[0].1.get_value());
    assert_eq!(Some(3), tiles[0].1.get_prev());
    assert_eq!(String::new(), tiles[0].1.get_state());
}

#[test]
fn test_add_random_tile_spawns_one() {
    let mut gs = GameState::new(to_grid([0; 16]), true);
    gs.add_random_tile();
    assert_eq!(1, occupied(&gs));
    let tiles = gs.get_tiles();
    assert_eq!(1, tiles.len());
    let v = tiles[0].1.get_value();
    assert!(v == 2 || v == 4);
    assert_eq!(" tile-new".to_string(), tiles[0].1.get_state());
    assert_eq!(None, tiles[0].1.get_prev());
    assert_eq!(0, gs.score());
}

#[test]
fn test_add_random_tile_disabled_is_noop() {
    let mut gs = GameState::new(to_grid([0; 16]), false);
    gs.add_random_tile();
    assert_eq!(0, occupied(&gs));
}

#[test]
fn test_add_random_tile_full_board_is_noop() {
    let mut board = [2; 16];
    board[1] = 4;
    board[5] = 4;
    let mut gs = GameState::new(to_grid(board), true);
    gs.add_random_tile();
    assert_eq!(16, occupied(&gs));
    assert_eq!(board, from_grid(gs.cells()));
}

#[test]
fn test_default_spawns_two() {
    let gs = GameState::default();
    assert_eq!(2, occupied(&gs));
    assert_eq!(0, gs.score());
    assert!(!gs.is_won());
    assert!(!gs.is_over());
    assert!(gs.spawning_enabled());
    for (_, t) in gs.get_tiles() {
        let v = t.get_value();
        assert!(v == 2 || v == 4);
        assert_eq!(" tile-new".to_string(), t.get_state());
    }
}

#[test]
fn test_grid_valid_and_restore() {
    let good = to_grid([2, 4, 0, 0, 0, 0, 0, 0, 0, 0, 0, 0, 0, 0, 0, 1024]);
    assert!(game2048::game_state::grid_valid(&good, false));

    let short: Vec<Option<Tile>> = vec![None; 15];
    assert!(!game2048::game_state::grid_valid(&short, false));

    let bad_value = to_grid([3, 0, 0, 0, 0, 0, 0, 0, 0, 0, 0, 0, 0, 0, 0, 0]);
    assert!(!game2048::game_state::grid_valid(&bad_value, false));

    let winner = to_grid([2048, 0, 0, 0, 0, 0, 0, 0, 0, 0, 0, 0, 0, 0, 0, 0]);
    assert!(!game2048::game_state::grid_valid(&winner, false));
    assert!(game2048::game_state::grid_valid(&winner, true));

    let gs = GameState::restore(good, 42, false, false, true);
    assert_eq!(42, gs.score());
    assert!(!gs.is_won());
    assert!(!gs.is_over());
    assert!(gs.spawning_enabled());
    assert_eq!(
        [2, 4, 0, 0, 0, 0, 0, 0, 0, 0, 0, 0, 0, 0, 0, 1024],
        from_grid(gs.cells())
    );
}

#[test]
fn test_tile_eq_ignores_annotation() {
    let fresh = Tile::new(4);
    let slid = Tile::restore(4, TileState::Static, Some(9));
    let merged = Tile::restore(4, TileState::Merged, Some(2));
    assert_eq!(fresh, slid);
    assert_eq!(slid, merged);
    assert_ne!(fresh, Tile::new(8));
}

#[test]
fn test_game_state_eq_compares_grids_only() {
    let board = [2, 4, 0, 0, 0, 0, 0, 0, 0, 0, 0, 0, 0, 0, 0, 0];
    let a = GameState::new(to_grid(board), false);
    let b = GameState::restore(to_grid(board), 99, false, false, true);
    assert_eq!(a, b);
    let c = GameState::new(
        to_grid([2, 8, 0, 0, 0, 0, 0, 0, 0, 0, 0, 0, 0, 0, 0, 0]),
        false,
    );
    assert_ne!(a, c);
}

#[test]
fn test_tile_restore_round_trip() {
    let t = Tile::restore(8, TileState::Merged, Some(7));
    assert_eq!(8, t.get_value());
    assert_eq!(Some(7), t.get_prev());
    assert!(matches!(t.annotation(), TileState::Merged));
    assert_eq!(" tile-merged".to_string(), t.get_state());

    let n = Tile::new(2);
    assert!(matches!(n.annotation(), TileState::New));
    assert_eq!(None, n.get_prev());
    assert_eq!(" tile-new".to_string(), n.get_state());
}
