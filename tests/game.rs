use minesweeper::{GameError, GameState, Minesweeper, Tile, TileValue};

fn snapshot(game: &Minesweeper) -> Vec<Tile> {
    let mut tiles = Vec::new();
    for x in 0..game.get_size() {
        for y in 0..game.get_size() {
            tiles.push(*game.get_tile(x, y).unwrap());
        }
    }
    tiles
}

#[test]
fn test_game_creation() {
    let mine_locations = vec![(0, 0), (1, 1)];
    let game = Minesweeper::new(3, mine_locations);

    assert_eq!(game.get_size(), 3);
    assert_eq!(game.get_bomb_count(), 2);
    assert_eq!(*game.get_game_state(), GameState::InProgress);
}

#[test]
fn test_mine_placement() {
    let mine_locations = vec![(0, 0), (2, 2)];
    let game = Minesweeper::new(3, mine_locations);

    assert!(game.get_tile(0, 0).unwrap().is_bomb());
    assert!(game.get_tile(2, 2).unwrap().is_bomb());
    assert!(!game.get_tile(1, 1).unwrap().is_bomb());
}

#[test]
fn test_adjacent_bomb_counting() {
    let mine_locations = vec![(0, 0)];
    let game = Minesweeper::new(3, mine_locations);

    let tile = game.get_tile(1, 1).unwrap();
    assert_eq!(tile.get_number(), Some(1));

    let tile = game.get_tile(2, 2).unwrap();
    assert_eq!(tile.get_number(), Some(0));
}

#[test]
fn test_clicking_bomb() {
    let mine_locations = vec![(0, 0)];
    let mut game = Minesweeper::new(2, mine_locations);

    let result = game.click_tile(0, 0);
    assert!(result.is_ok());
    assert_eq!(*game.get_game_state(), GameState::Lost);
}

#[test]
fn test_flagging() {
    let mine_locations = vec![(0, 0)];
    let mut game = Minesweeper::new(2, mine_locations);

    assert!(game.toggle_flag(0, 0).is_ok());
    assert!(game.get_tile(0, 0).unwrap().flagged);

    assert!(game.toggle_flag(0, 0).is_ok());
    assert!(!game.get_tile(0, 0).unwrap().flagged);
}

#[test]
fn test_win_condition() {
    let mine_locations = vec![(0, 0)];
    let mut game = Minesweeper::new(2, mine_locations);

    game.click_tile(0, 1).unwrap();
    game.click_tile(1, 0).unwrap();
    game.click_tile(1, 1).unwrap();

    assert_eq!(*game.get_game_state(), GameState::Won);
}

#[test]
fn test_new_with_first_click() {
    for _ in 0..10 {
        let game = Minesweeper::new_with_first_click(10, 15, (5, 5));

        let first_tile = game.get_tile(5, 5).unwrap();
        assert!(first_tile.exposed);
        assert!(!first_tile.is_bomb());

        assert_eq!(*game.get_game_state(), GameState::InProgress);

        assert_eq!(game.get_bomb_count(), 15);
    }
}

#[test]
fn test_first_click_creates_opening() {
    let mut zero_count = 0;
    for _ in 0..20 {
        let game = Minesweeper::new_with_first_click(10, 10, (5, 5));
        let first_tile = game.get_tile(5, 5).unwrap();

        if let Some(0) = first_tile.get_number() {
            zero_count += 1;
        }
    }

    assert!(zero_count > 5, "Should get some zero tiles as first clicks");
}

#[test]
fn numbers_count_all_eight_neighbours() {
    // mines around the centre of a 3x3 grid, and in a corner of a 4x4 grid
    let game = Minesweeper::new(3, vec![(0, 0), (0, 1), (0, 2), (1, 0), (1, 2), (2, 0), (2, 1), (2, 2)]);
    assert_eq!(game.get_tile(1, 1).unwrap().get_number(), Some(8));
    let game = Minesweeper::new(4, vec![(0, 1), (1, 0), (1, 1), (3, 3)]);
    assert_eq!(game.get_tile(0, 0).unwrap().get_number(), Some(3));
    assert_eq!(game.get_tile(2, 2).unwrap().get_number(), Some(2));
    assert_eq!(game.get_tile(0, 3).unwrap().get_number(), Some(0));
    assert_eq!(game.get_tile(2, 0).unwrap().get_number(), Some(2));
    assert_eq!(game.get_tile(3, 3).unwrap().get_number(), None);
}

#[test]
fn bomb_count_ignores_duplicates_and_out_of_range() {
    let game = Minesweeper::new(3, vec![(0, 0), (0, 0), (1, 2), (3, 0), (0, 7), (1, 2)]);
    assert_eq!(game.get_bomb_count(), 2);
    assert!(game.get_tile(0, 0).unwrap().is_bomb());
    assert!(game.get_tile(1, 2).unwrap().is_bomb());
    let game = Minesweeper::new(2, vec![]);
    assert_eq!(game.get_bomb_count(), 0);
    let game = Minesweeper::new(2, vec![(5, 5); 10]);
    assert_eq!(game.get_bomb_count(), 0);
}

#[test]
fn losing_exposes_every_mine_and_nothing_else() {
    let mut game = Minesweeper::new(4, vec![(0, 0), (3, 3), (2, 0)]);
    game.toggle_flag(3, 3).unwrap();
    game.toggle_flag(1, 1).unwrap();
    let before = snapshot(&game);
    game.click_tile(0, 0).unwrap();
    assert_eq!(*game.get_game_state(), GameState::Lost);
    let after = snapshot(&game);
    for i in 0..16 {
        if before[i].is_bomb() {
            assert!(after[i].exposed);
            assert_eq!(after[i].flagged, before[i].flagged);
        } else {
            assert_eq!(after[i], before[i]);
        }
    }
    assert_eq!(game.count_exposed_tiles(), 3);
}

#[test]
fn flood_fill_opens_the_whole_safe_region() {
    let mut game = Minesweeper::new(3, vec![(0, 0)]);
    assert_eq!(game.get_tile(1, 1).unwrap().get_number(), Some(1));
    assert_eq!(game.get_tile(2, 2).unwrap().get_number(), Some(0));
    game.click_tile(2, 2).unwrap();
    for x in 0..3 {
        for y in 0..3 {
            let tile = game.get_tile(x, y).unwrap();
            assert_eq!(tile.exposed, !(x == 0 && y == 0));
        }
    }
    assert_eq!(game.count_exposed_tiles(), 8);
    assert_eq!(*game.get_game_state(), GameState::Won);
}

#[test]
fn flood_fill_stops_at_flags_mines_and_numbers() {
    // column 3 holds the mines, so columns 0 and 1 show zero and column 2 stops the fill
    let mut game = Minesweeper::new(5, vec![(0, 3), (1, 3), (2, 3), (3, 3), (4, 3)]);
    game.toggle_flag(4, 0).unwrap();
    game.click_tile(0, 0).unwrap();
    for x in 0..5 {
        for y in 0..5 {
            let tile = game.get_tile(x, y).unwrap();
            let expected = y <= 2 && !(x == 4 && y == 0);
            assert_eq!(tile.exposed, expected, "tile ({}, {})", x, y);
        }
    }
    assert!(game.get_tile(4, 0).unwrap().flagged);
    assert_eq!(*game.get_game_state(), GameState::InProgress);
}

#[test]
fn winning_does_not_depend_on_flags() {
    let mut game = Minesweeper::new(2, vec![(0, 0)]);
    game.toggle_flag(1, 1).unwrap();
    game.click_tile(0, 1).unwrap();
    game.click_tile(1, 0).unwrap();
    assert_eq!(*game.get_game_state(), GameState::InProgress);
    game.toggle_flag(1, 1).unwrap();
    game.click_tile(1, 1).unwrap();
    assert_eq!(*game.get_game_state(), GameState::Won);

    let mut game = Minesweeper::new(2, vec![(0, 0)]);
    game.toggle_flag(0, 0).unwrap();
    game.click_tile(0, 1).unwrap();
    game.click_tile(1, 0).unwrap();
    game.click_tile(1, 1).unwrap();
    assert_eq!(*game.get_game_state(), GameState::Won);
    assert_eq!(game.count_flagged_tiles(), 1);
}

#[test]
fn finished_games_refuse_every_action() {
    let mut game = Minesweeper::new(2, vec![(0, 0)]);
    game.click_tile(0, 0).unwrap();
    assert_eq!(*game.get_game_state(), GameState::Lost);
    assert!(game.get_tile(0, 0).unwrap().exposed);
    let before = snapshot(&game);
    for x in 0..3 {
        for y in 0..3 {
            assert_eq!(game.click_tile(x, y), Err(GameError::GameAlreadyOver));
            assert_eq!(game.toggle_flag(x, y), Err(GameError::GameAlreadyOver));
        }
    }
    assert_eq!(snapshot(&game), before);
    assert_eq!(*game.get_game_state(), GameState::Lost);

    let mut game = Minesweeper::new(2, vec![(0, 0)]);
    game.click_tile(0, 1).unwrap();
    game.click_tile(1, 0).unwrap();
    game.click_tile(1, 1).unwrap();
    let before = snapshot(&game);
    assert_eq!(game.click_tile(0, 0), Err(GameError::GameAlreadyOver));
    assert_eq!(game.toggle_flag(0, 0), Err(GameError::GameAlreadyOver));
    assert_eq!(snapshot(&game), before);
    assert_eq!(*game.get_game_state(), GameState::Won);
}

#[test]
fn flagged_tile_must_be_unflagged_before_a_click() {
    let mut game = Minesweeper::new(3, vec![(2, 2)]);
    game.toggle_flag(0, 0).unwrap();
    let before = snapshot(&game);
    assert_eq!(game.click_tile(0, 0), Err(GameError::TileUnavailable));
    assert_eq!(snapshot(&game), before);
    game.toggle_flag(0, 0).unwrap();
    assert_eq!(game.click_tile(0, 0), Ok(()));
    assert!(game.get_tile(0, 0).unwrap().exposed);
    assert_eq!(*game.get_game_state(), GameState::Won);
}

#[test]
fn refused_actions_name_their_reason() {
    let mut game = Minesweeper::new(3, vec![(0, 0)]);
    assert_eq!(game.click_tile(3, 0), Err(GameError::OutOfBounds));
    assert_eq!(game.click_tile(0, 3), Err(GameError::OutOfBounds));
    assert_eq!(game.toggle_flag(9, 9), Err(GameError::OutOfBounds));
    game.click_tile(1, 1).unwrap();
    assert_eq!(game.count_exposed_tiles(), 1);
    assert_eq!(game.click_tile(1, 1), Err(GameError::TileUnavailable));
    assert_eq!(game.toggle_flag(1, 1), Err(GameError::TileAlreadyExposed));
    assert!(!game.get_tile(1, 1).unwrap().flagged);
    assert!(game.get_tile(3, 3).is_none());
    assert_eq!(*game.get_game_state(), GameState::InProgress);
}

#[test]
fn counts_follow_flags_and_exposure() {
    let mut game = Minesweeper::new(3, vec![(0, 0), (2, 2)]);
    assert_eq!(game.count_flagged_tiles(), 0);
    assert_eq!(game.count_exposed_tiles(), 0);
    game.toggle_flag(0, 0).unwrap();
    game.toggle_flag(2, 2).unwrap();
    game.toggle_flag(0, 2).unwrap();
    assert_eq!(game.count_flagged_tiles(), 3);
    game.click_tile(1, 1).unwrap();
    assert_eq!(game.get_tile(1, 1).unwrap().get_number(), Some(2));
    assert_eq!(game.count_exposed_tiles(), 1);
}

#[test]
fn single_cell_boards() {
    let mut game = Minesweeper::new(1, vec![]);
    assert_eq!(game.click_tile(0, 0), Ok(()));
    assert_eq!(*game.get_game_state(), GameState::Won);
    let mut game = Minesweeper::new(1, vec![(0, 0)]);
    assert_eq!(game.click_tile(0, 0), Ok(()));
    assert_eq!(*game.get_game_state(), GameState::Lost);
}

#[test]
fn first_click_is_safe_in_the_dense_regime() {
    for size in 3..7usize {
        let bombs = size * size - 9;
        for _ in 0..5 {
            let game = Minesweeper::new_with_first_click(size, bombs, (size - 1, 0));
            let tile = game.get_tile(size - 1, 0).unwrap();
            assert!(tile.exposed);
            assert!(!tile.is_bomb());
            assert_eq!(game.get_bomb_count(), bombs);
            assert_ne!(*game.get_game_state(), GameState::Lost);
        }
    }
    // every cell outside the centre square holds a mine: the opening clears the board
    let game = Minesweeper::new_with_first_click(5, 16, (2, 2));
    assert_eq!(game.get_tile(2, 2).unwrap().get_number(), Some(0));
    assert_eq!(game.count_exposed_tiles(), 9);
    assert_eq!(*game.get_game_state(), GameState::Won);
    let game = Minesweeper::new_with_first_click(6, 20, (0, 5));
    assert_eq!(*game.get_game_state(), GameState::InProgress);
}

#[test]
fn first_click_falls_back_when_crowded() {
    for _ in 0..5 {
        let game = Minesweeper::new_with_first_click(3, 100, (1, 1));
        assert_eq!(game.get_bomb_count(), 8);
        assert_eq!(game.get_tile(1, 1).unwrap().get_number(), Some(8));
        assert!(game.get_tile(1, 1).unwrap().exposed);
        assert_eq!(*game.get_game_state(), GameState::Won);

        let game = Minesweeper::new_with_first_click(4, 10, (0, 0));
        assert_eq!(game.get_bomb_count(), 10);
        assert!(!game.get_tile(0, 0).unwrap().is_bomb());
        assert_ne!(*game.get_game_state(), GameState::Lost);
    }
}

#[test]
fn no_mines_opens_everything_at_once() {
    let game = Minesweeper::new_with_first_click(4, 0, (1, 2));
    assert_eq!(game.get_bomb_count(), 0);
    assert_eq!(game.count_exposed_tiles(), 16);
    assert_eq!(*game.get_game_state(), GameState::Won);
}

#[test]
fn tile_accessors() {
    let mut tile = Tile::new();
    assert_eq!(tile, Tile::default());
    assert_eq!(tile.value, TileValue::Number(0));
    assert!(!tile.exposed && !tile.flagged);
    assert_eq!(tile.get_number(), Some(0));
    tile.set_number(5);
    assert_eq!(tile.get_number(), Some(5));
    assert!(!tile.is_bomb());
    tile.set_bomb();
    assert!(tile.is_bomb());
    assert_eq!(tile.get_number(), None);
}

#[test]
fn candidates_skip_the_square_around_the_first_click() {
    let pool = Minesweeper::mine_candidates(4, 3, (0, 0));
    assert_eq!(
        pool,
        vec![(0, 2), (0, 3), (1, 2), (1, 3), (2, 0), (2, 1), (2, 2), (2, 3), (3, 0), (3, 1), (3, 2), (3, 3)]
    );
    let pool = Minesweeper::mine_candidates(4, 7, (1, 2));
    assert_eq!(pool, vec![(0, 0), (1, 0), (2, 0), (3, 0), (3, 1), (3, 2), (3, 3)]);
}

#[test]
fn candidates_fall_back_to_all_but_the_first_click() {
    let pool = Minesweeper::mine_candidates(4, 8, (1, 2));
    assert_eq!(pool.len(), 15);
    assert!(!pool.contains(&(1, 2)));
    assert_eq!(pool[0], (0, 0));
    assert_eq!(pool[5], (1, 1));
    assert_eq!(pool[6], (1, 3));
    let pool = Minesweeper::mine_candidates(3, 1, (1, 1));
    assert_eq!(pool, vec![(0, 0), (0, 1), (0, 2), (1, 0), (1, 2), (2, 0), (2, 1), (2, 2)]);
    let pool = Minesweeper::mine_candidates(1, 0, (0, 0));
    assert!(pool.is_empty());
}

#[test]
fn mines_are_drawn_by_swapping_in_the_last_cell() {
    let pool = vec![(0, 0), (0, 1), (1, 0), (1, 1)];
    assert_eq!(Minesweeper::pick_mines(pool.clone(), &vec![1, 0]), vec![(0, 1), (0, 0)]);
    assert_eq!(Minesweeper::pick_mines(pool.clone(), &vec![0, 0, 0]), vec![(0, 0), (1, 1), (1, 0)]);
    assert_eq!(Minesweeper::pick_mines(pool.clone(), &vec![3, 2, 1, 0]), vec![(1, 1), (1, 0), (0, 1), (0, 0)]);
    assert_eq!(Minesweeper::pick_mines(pool, &vec![]), vec![]);
}
