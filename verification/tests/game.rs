use minrs::{FlagState, MinrsError, Position, StdMinrsGame, StdTile, TileContents, TileState};

/// Every tile state of the board, row by row, for before/after comparisons.
fn states(game: &StdMinrsGame) -> Vec<TileState> {
    let mut all = Vec::new();
    for x in 0..game.get_width() {
        for y in 0..game.get_height() {
            all.push(game.get_tile_state(&Position { x, y }).unwrap());
        }
    }
    all
}

#[test]
fn test_init_std_game() {
    let h = 8;
    let w = 10;
    let game = StdMinrsGame::new(w, h, 10).unwrap();
    assert_eq!(game.get_width(), w);
    assert_eq!(game.get_height(), h);
}

#[test]
fn test_error_size_init_std_game() {
    let h = 8 - 1;
    let w = 10;
    let game = StdMinrsGame::new(w, h, 10);
    assert!(game.is_err());
}

#[test]
fn test_error_mine_cnt_init_std_game() {
    let h = 9;
    let w = 9;
    let game = StdMinrsGame::new(w, h, 81);
    assert!(game.is_err());
}

/// Tests that the board spawns in all covered.
#[test]
fn test_tile_state_covered() {
    let h = 8;
    let w = 8;
    let ts_covered = TileState::Covered(None);
    let game = StdMinrsGame::new(w, h, 0).unwrap();
    for x in 0..h {
        for y in 0..w {
            assert_eq!(game.get_tile_state(&Position { x, y }).unwrap(), ts_covered);
        }
    }
}

#[test]
fn test_tile_mine_count() {
    let h = 8;
    let w = 8;
    let mines = 10;
    let mut count = 0;
    let game = StdMinrsGame::new(w, h, mines).unwrap();
    for x in 0..h {
        for y in 0..w {
            if game.get_tile(&Position { x, y }).unwrap().is_mine() {
                count += 1;
            }
        }
    }
    assert_eq!(count, mines);
}

#[test]
fn test_tile_simple_uncover() {
    let h = 8;
    let w = 8;
    let test_pos = Position { x: 3, y: 4 };
    let ts_uncovered = TileState::Uncovered(TileContents::MineCount(0));
    let mut game = StdMinrsGame::new(w, h, 0).unwrap();
    game.uncover_at(&test_pos).unwrap();
    assert_eq!(game.get_tile_state(&test_pos).unwrap(), ts_uncovered);
}

#[test]
fn test_tile_simple_uncover_mine_counting() {
    let h = 8;
    let w = 8;
    let test_pos = Position { x: 3, y: 4 };
    // following positions to all set as mines
    let test_pos1 = Position { x: 4, y: 4 };
    let test_pos2 = Position { x: 5, y: 4 };
    let test_pos3 = Position { x: 2, y: 3 };
    let ts_uncovered = TileState::Uncovered(TileContents::MineCount(2));
    let mut game = StdMinrsGame::new(w, h, 0).unwrap();
    game.set_mine_at(&test_pos1, true).unwrap();
    game.set_mine_at(&test_pos2, true).unwrap();
    game.set_mine_at(&test_pos3, true).unwrap();
    game.uncover_at(&test_pos).unwrap();
    assert_eq!(game.get_tile_state(&test_pos).unwrap(), ts_uncovered);
}

/// Construction succeeds on valid arguments and places the exact number of
/// mines asked for.
#[test]
fn construction_places_exact_mine_count() {
    let game = StdMinrsGame::new(12, 9, 25).unwrap();
    let mut count = 0;
    for x in 0..12 {
        for y in 0..9 {
            if game.get_tile(&Position { x, y }).unwrap().is_mine() {
                count += 1;
            }
        }
    }
    assert_eq!(count, 25);
}

/// Revealing a zero-count tile floods the connected region and its border,
/// and never a mine.
#[test]
fn flood_uncovers_region_and_border() {
    let mut game = StdMinrsGame::new(8, 8, 0).unwrap();
    game.set_mine_at(&Position { x: 7, y: 7 }, true).unwrap();
    game.uncover_tile(&Position { x: 0, y: 0 }).unwrap();
    assert!(!game.game_over());
    for x in 0..8 {
        for y in 0..8 {
            let state = game.get_tile_state(&Position { x, y }).unwrap();
            if x == 7 && y == 7 {
                // the lone mine stays covered
                assert_eq!(state, TileState::Covered(None));
            } else if (x == 6 || x == 7) && (y == 6 || y == 7) {
                // the numbered border around it
                assert_eq!(state, TileState::Uncovered(TileContents::MineCount(1)));
            } else {
                assert_eq!(state, TileState::Uncovered(TileContents::MineCount(0)));
            }
        }
    }
}

/// The first reveal of a session never detonates a mine.
#[test]
fn first_reveal_never_explodes() {
    let mut game = StdMinrsGame::new(8, 8, 10).unwrap();
    game.uncover_tile(&Position { x: 3, y: 3 }).unwrap();
    assert!(!game.game_over());
    assert_eq!(
        game.get_tile_state(&Position { x: 3, y: 3 }).unwrap(),
        TileState::Uncovered(TileContents::MineCount(0))
    );
}

/// After the first reveal, revealing a known mine loses the game and leaves
/// every other tile state as it was.
#[test]
fn revealing_mine_after_start_loses() {
    let mine_pos = Position { x: 7, y: 7 };
    let mut game = StdMinrsGame::new(8, 8, 0).unwrap();
    game.set_mine_at(&mine_pos, true).unwrap();
    game.uncover_tile(&Position { x: 0, y: 0 }).unwrap();
    let before = states(&game);
    game.uncover_tile(&mine_pos).unwrap();
    assert!(game.game_over());
    assert_eq!(
        game.get_tile_state(&mine_pos).unwrap(),
        TileState::Uncovered(TileContents::Mine)
    );
    let after = states(&game);
    for x in 0..8u8 {
        for y in 0..8u8 {
            let i = (x as usize) * 8 + y as usize;
            if !(x == 7 && y == 7) {
                assert_eq!(before[i], after[i]);
            }
        }
    }
}

/// `cycle_flag` walks none, red flag, questionable, and back to none.
#[test]
fn cycle_flag_cycles() {
    let p = Position { x: 2, y: 2 };
    let mut game = StdMinrsGame::new(8, 8, 0).unwrap();
    game.cycle_flag(&p).unwrap();
    assert_eq!(
        game.get_tile_state(&p).unwrap(),
        TileState::Covered(Some(FlagState::RedFlag))
    );
    game.cycle_flag(&p).unwrap();
    assert_eq!(
        game.get_tile_state(&p).unwrap(),
        TileState::Covered(Some(FlagState::Questionable))
    );
    game.cycle_flag(&p).unwrap();
    assert_eq!(game.get_tile_state(&p).unwrap(), TileState::Covered(None));
}

/// A chord on a two-count tile with two flagged neighbors uncovers every
/// remaining covered, unflagged neighbor and leaves the flagged ones alone.
#[test]
fn chord_uncovers_unflagged_neighbors() {
    let center = Position { x: 3, y: 3 };
    let mine_a = Position { x: 2, y: 2 };
    let mine_b = Position { x: 4, y: 4 };
    let mut game = StdMinrsGame::new(8, 8, 0).unwrap();
    game.set_mine_at(&mine_a, true).unwrap();
    game.set_mine_at(&mine_b, true).unwrap();
    game.uncover_at(&center).unwrap();
    assert_eq!(
        game.get_tile_state(&center).unwrap(),
        TileState::Uncovered(TileContents::MineCount(2))
    );
    game.cycle_flag(&mine_a).unwrap();
    game.cycle_flag(&mine_b).unwrap();
    game.uncover_neighbors(&center).unwrap();
    assert!(!game.game_over());
    for (x, y) in [(2u8, 3u8), (2, 4), (3, 2), (3, 4), (4, 2), (4, 3)] {
        let state = game.get_tile_state(&Position { x, y }).unwrap();
        assert!(matches!(state, TileState::Uncovered(_)), "({x},{y}) still covered");
    }
    assert_eq!(
        game.get_tile_state(&mine_a).unwrap(),
        TileState::Covered(Some(FlagState::RedFlag))
    );
    assert_eq!(
        game.get_tile_state(&mine_b).unwrap(),
        TileState::Covered(Some(FlagState::RedFlag))
    );
}

/// A chord with fewer flags than the tile's count fails and changes no
/// tile state.
#[test]
fn chord_with_missing_flags_fails() {
    let center = Position { x: 3, y: 3 };
    let mine_a = Position { x: 2, y: 2 };
    let mine_b = Position { x: 4, y: 4 };
    let mut game = StdMinrsGame::new(8, 8, 0).unwrap();
    game.set_mine_at(&mine_a, true).unwrap();
    game.set_mine_at(&mine_b, true).unwrap();
    game.uncover_at(&center).unwrap();
    game.cycle_flag(&mine_a).unwrap();
    let before = states(&game);
    assert_eq!(
        game.uncover_neighbors(&center),
        Err(MinrsError::InvalidArgument)
    );
    assert_eq!(before, states(&game));
}

/// Victory holds exactly when every mine-free tile is uncovered, whatever
/// flags sit on the mines.
#[test]
fn victory_ignores_flags_on_mines() {
    let mine_pos = Position { x: 0, y: 0 };
    let mut game = StdMinrsGame::new(8, 8, 0).unwrap();
    game.set_mine_at(&mine_pos, true).unwrap();
    game.cycle_flag(&mine_pos).unwrap();
    assert!(!game.victory());
    game.uncover_tile(&Position { x: 7, y: 7 }).unwrap();
    assert!(game.victory());
    assert!(!game.game_over());
}

/// Every failing call leaves the visible board exactly as it was.
#[test]
fn failing_calls_change_nothing() {
    let mut game = StdMinrsGame::new(8, 8, 0).unwrap();
    game.set_mine_at(&Position { x: 6, y: 6 }, true).unwrap();
    game.uncover_at(&Position { x: 0, y: 0 }).unwrap();
    let before = states(&game);
    let oob = Position { x: 8, y: 0 };
    assert_eq!(game.uncover_tile(&oob), Err(MinrsError::OobPosition));
    assert_eq!(game.cycle_flag(&oob), Err(MinrsError::OobPosition));
    assert_eq!(game.uncover_neighbors(&oob), Err(MinrsError::OobPosition));
    assert_eq!(
        game.uncover_tile(&Position { x: 0, y: 0 }),
        Err(MinrsError::InvalidArgument)
    );
    assert_eq!(
        game.uncover_neighbors(&Position { x: 3, y: 3 }),
        Err(MinrsError::InvalidArgument)
    );
    assert_eq!(before, states(&game));
    // And once the game is over, every mutating call is refused unchanged.
    game.uncover_tile(&Position { x: 6, y: 6 }).unwrap();
    assert!(game.game_over());
    let lost = states(&game);
    assert_eq!(
        game.uncover_tile(&Position { x: 5, y: 5 }),
        Err(MinrsError::GameOver)
    );
    assert_eq!(
        game.cycle_flag(&Position { x: 5, y: 5 }),
        Err(MinrsError::GameOver)
    );
    assert_eq!(
        game.uncover_neighbors(&Position { x: 5, y: 5 }),
        Err(MinrsError::GameOver)
    );
    assert_eq!(lost, states(&game));
}

/// Uncovering an already uncovered tile directly reports `InvalidPosition`.
#[test]
fn uncover_at_rejects_uncovered_tile() {
    let p = Position { x: 1, y: 1 };
    let mut game = StdMinrsGame::new(8, 8, 0).unwrap();
    game.uncover_at(&p).unwrap();
    assert_eq!(game.uncover_at(&p), Err(MinrsError::InvalidPosition));
}

/// Corners have three neighbors, edges five, inner tiles eight.
#[test]
fn neighbor_positions_respect_edges() {
    let game = StdMinrsGame::new(8, 8, 0).unwrap();
    let corner = game.get_neighbors_pos(&Position { x: 0, y: 0 }).unwrap();
    assert_eq!(
        corner,
        vec![
            Position { x: 0, y: 1 },
            Position { x: 1, y: 0 },
            Position { x: 1, y: 1 },
        ]
    );
    let edge = game.get_neighbors_pos(&Position { x: 0, y: 3 }).unwrap();
    assert_eq!(edge.len(), 5);
    let inner = game.get_neighbors_pos(&Position { x: 4, y: 4 }).unwrap();
    assert_eq!(inner.len(), 8);
}

/// The tile mutators keep the board's mines in step: setting and clearing
/// one mine bit changes exactly that tile.
#[test]
fn set_mine_at_tracks_mine_count() {
    fn mines(game: &StdMinrsGame) -> u16 {
        let mut count = 0;
        for x in 0..8 {
            for y in 0..8 {
                if game.get_tile(&Position { x, y }).unwrap().is_mine() {
                    count += 1;
                }
            }
        }
        count
    }
    let p = Position { x: 5, y: 5 };
    let mut game = StdMinrsGame::new(8, 8, 0).unwrap();
    assert_eq!(mines(&game), 0);
    game.set_mine_at(&p, true).unwrap();
    assert_eq!(mines(&game), 1);
    game.set_mine_at(&p, true).unwrap();
    assert_eq!(mines(&game), 1);
    game.set_mine_at(&p, false).unwrap();
    assert_eq!(mines(&game), 0);
}

/// A single tile covers, flags, and uncovers as the rules say.
#[test]
fn tile_level_operations() {
    let mut t = StdTile::new(false);
    assert!(t.is_covered());
    assert!(!t.is_mine());
    assert_eq!(t.get_flag(), None);
    t.toggle_flag();
    assert_eq!(t.get_flag(), Some(FlagState::RedFlag));
    t.set_mine(true);
    assert!(t.is_mine());
    assert_eq!(t.uncover(), Ok(true));
    assert!(!t.is_covered());
    // flags are not observable on uncovered tiles
    assert_eq!(t.get_flag(), None);
    assert_eq!(t.uncover(), Err(MinrsError::InvalidPosition));
}
