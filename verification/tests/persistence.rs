//! Behaviour of the undo queue, the level reset, the action log, replay, and
//! level loading.

use snowcrab::{Direction, Game, SnowBall, Tile, Viewport, REWIND_CAPACITY};

fn cell(game: &Game, x: usize, y: usize) -> usize {
    x * game.size_y + y
}

#[test]
fn rewind_restores_every_field() {
    let mut game = Game::instanciate("Ps,.").unwrap();
    let before_tiles = game.tiles.clone();
    let before_snowballs = game.snowballs.clone();
    let before_player = game.player;
    assert!(game.process_player_input(Direction::Right));
    assert!(game.rewind());
    assert_eq!(game.tiles, before_tiles);
    assert_eq!(game.snowballs, before_snowballs);
    assert_eq!(game.player, before_player);
    assert_eq!(game.get_history(), "");
}

#[test]
fn rewind_on_fresh_engine_fails() {
    let mut game = Game::instanciate("P.o").unwrap();
    assert!(!game.rewind());
    assert_eq!(game.player, (0, 0));
}

#[test]
fn undo_queue_bounded_by_capacity() {
    let mut game = Game::instanciate("P..").unwrap();
    let moves = REWIND_CAPACITY + 52;
    for k in 0..moves {
        let dir = if k % 2 == 0 { Direction::Right } else { Direction::Left };
        assert!(game.process_player_input(dir));
    }
    assert_eq!(game.get_history().len(), moves);
    // exactly the newest REWIND_CAPACITY moves can be undone
    for _ in 0..REWIND_CAPACITY {
        assert!(game.rewind());
    }
    assert!(!game.rewind());
    assert_eq!(game.get_history().len(), moves - REWIND_CAPACITY);
}

#[test]
fn reset_restores_the_level() {
    let mut game = Game::instanciate("Ps,.").unwrap();
    let fresh = Game::instanciate("Ps,.").unwrap();
    assert!(game.process_player_input(Direction::Right));
    assert!(game.reset_current_level());
    assert_eq!(game.tiles, fresh.tiles);
    assert_eq!(game.snowballs, fresh.snowballs);
    // the reset does not move the player
    assert_eq!(game.player, (0, 1));
    assert_eq!(game.get_history(), "RT");
}

#[test]
fn reset_clears_the_undo_queue() {
    let mut game = Game::instanciate("Ps,.").unwrap();
    assert!(game.process_player_input(Direction::Right));
    assert!(game.reset_current_level());
    assert!(!game.rewind());
    assert_eq!(game.get_history(), "RT");
}

#[test]
fn reset_on_pristine_level_fails() {
    let mut game = Game::instanciate("P...").unwrap();
    assert!(game.process_player_input(Direction::Right));
    // the player moved, but no cell differs from the asset
    assert!(!game.reset_current_level());
    assert_eq!(game.get_history(), "R");
}

#[test]
fn reset_only_touches_the_connected_sublevel() {
    // a tree splits the map in two sub-levels
    let mut game = Game::instanciate("P.t.,").unwrap();
    assert!(game.process_player_input(Direction::Right));
    // disturb one cell in each sub-level by hand
    let near = cell(&game, 0, 1);
    let far = cell(&game, 0, 4);
    game.tiles[near] = Tile::Snow;
    game.tiles[far] = Tile::Dirt;
    assert!(game.reset_current_level());
    // the reachable cell is restored, the disconnected one is left alone
    assert_eq!(game.tiles[near], Tile::Dirt);
    assert_eq!(game.tiles[far], Tile::Dirt);
    assert_eq!(game.snowballs[far], None);
}

#[test]
fn reset_unavailable_off_level() {
    // the player's starting marker parses as Empty terrain: the connected
    // sub-level is empty until the player steps onto dirt or snow
    let mut game = Game::instanciate("P.s.").unwrap();
    game.snowballs[2] = None;
    assert!(!game.reset_current_level());
}

#[test]
fn replay_reproduces_the_recorded_game() {
    let mut live = Game::instanciate("P...\n..s.\n.ml.").unwrap();
    for dir in [
        Direction::Down,
        Direction::Down,
        Direction::Right,
        Direction::Up,
        Direction::Up,
        Direction::Right,
        Direction::Down,
    ] {
        assert!(live.process_player_input(dir));
    }
    let saved = live.get_history().to_string();
    let mut loaded = Game::instanciate("P...\n..s.\n.ml.").unwrap();
    assert_eq!(loaded.apply_history(&saved), Ok(()));
    assert_eq!(loaded.tiles, live.tiles);
    assert_eq!(loaded.snowballs, live.snowballs);
    assert_eq!(loaded.player, live.player);
    assert_eq!(loaded.get_history(), saved);
    assert_eq!(loaded.snowmen_count(), 1);
}

#[test]
fn replay_includes_resets() {
    let mut live = Game::instanciate("Ps,.").unwrap();
    assert!(live.process_player_input(Direction::Right));
    assert!(live.reset_current_level());
    let saved = live.get_history().to_string();
    assert_eq!(saved, "RT");
    let mut loaded = Game::instanciate("Ps,.").unwrap();
    assert_eq!(loaded.apply_history(&saved), Ok(()));
    assert_eq!(loaded.tiles, live.tiles);
    assert_eq!(loaded.snowballs, live.snowballs);
    assert_eq!(loaded.player, live.player);
}

#[test]
fn replay_ignores_line_breaks() {
    let mut game = Game::instanciate("P...").unwrap();
    assert_eq!(game.apply_history("RR\nR\n"), Ok(()));
    assert_eq!(game.player, (0, 3));
    assert_eq!(game.get_history(), "RRR");
}

#[test]
fn replay_rejects_foreign_characters() {
    let mut game = Game::instanciate("P...").unwrap();
    assert_eq!(game.apply_history("RRzL"), Err('z'));
    // a hard parse error applies nothing
    assert_eq!(game.player, (0, 0));
    assert_eq!(game.get_history(), "");
}

#[test]
fn replay_keeps_the_valid_prefix_on_divergence() {
    // recorded on a longer corridor, replayed against a shorter one
    let mut game = Game::instanciate("P.o").unwrap();
    assert_eq!(game.apply_history("RRR"), Ok(()));
    assert_eq!(game.player, (0, 1));
    assert_eq!(game.get_history(), "R");
}

#[test]
fn rejected_moves_are_not_recorded() {
    let mut game = Game::instanciate("P.o").unwrap();
    assert!(!game.process_player_input(Direction::Up));
    assert!(game.process_player_input(Direction::Right));
    assert!(!game.process_player_input(Direction::Right));
    assert_eq!(game.get_history(), "R");
}

#[test]
fn loading_accepts_a_trailing_line_break() {
    let with = Game::instanciate("P.o\n").unwrap();
    let without = Game::instanciate("P.o").unwrap();
    assert_eq!(with.tiles, without.tiles);
    assert_eq!(with.snowballs, without.snowballs);
    assert_eq!(with.player, without.player);
}

#[test]
fn loading_rejects_malformed_assets() {
    // empty, ragged, playerless, and twice-marked assets all fail
    assert!(Game::instanciate("").is_none());
    assert!(Game::instanciate("P.\n...").is_none());
    assert!(Game::instanciate("...").is_none());
    assert!(Game::instanciate("P.\nP.").is_none());
    assert!(Game::instanciate("\nP.").is_none());
}

#[test]
fn loading_a_single_cell() {
    let game = Game::instanciate("P").unwrap();
    assert_eq!((game.size_x, game.size_y), (1, 1));
    assert_eq!(game.player, (0, 0));
    assert_eq!(game.tiles, vec![Tile::Empty]);
}

#[test]
fn loading_parses_snow_mounted_balls() {
    let game = Game::instanciate("PS").unwrap();
    assert_eq!(game.tiles[1], Tile::Snow);
    assert_eq!(game.snowballs[1], Some(SnowBall::Small));
}

#[test]
fn viewport_follows_the_player() {
    let mut game = Game::instanciate("...\n.P.\n...").unwrap();
    let mut viewport = Viewport::new(&game, (64, 64));
    assert_eq!((viewport.len_x, viewport.len_y), (1, 1));
    assert_eq!((viewport.base_x, viewport.base_y), (1, 1));
    assert!(game.process_player_input(Direction::Right));
    viewport.center_around_player(&game);
    assert_eq!((viewport.base_x, viewport.base_y), (1, 2));
    // clamped at the map's lower-right corner
    assert!(game.process_player_input(Direction::Down));
    viewport.center_around_player(&game);
    assert_eq!((viewport.base_x, viewport.base_y), (2, 2));
}

#[test]
fn replay_reproduces_after_rewinds() {
    let mut live = Game::instanciate("P...\n..s.\n.ml.").unwrap();
    assert!(live.process_player_input(Direction::Down));
    assert!(live.process_player_input(Direction::Down));
    assert!(live.process_player_input(Direction::Right));
    assert!(live.rewind());
    assert!(live.process_player_input(Direction::Right));
    assert!(live.process_player_input(Direction::Up));
    assert!(live.rewind());
    assert_eq!(live.get_history(), "DDR");
    let saved = live.get_history().to_string();
    let mut loaded = Game::instanciate("P...\n..s.\n.ml.").unwrap();
    assert_eq!(loaded.apply_history(&saved), Ok(()));
    assert_eq!(loaded.tiles, live.tiles);
    assert_eq!(loaded.snowballs, live.snowballs);
    assert_eq!(loaded.player, live.player);
}
