//! Behaviour of the move resolver: plain steps, pushes, merges, growth,
//! bounds, and the snowman endgame.

use snowcrab::{Direction, Game, SnowBall, Tile};

fn cell(game: &Game, x: usize, y: usize) -> usize {
    x * game.size_y + y
}

#[test]
fn scenario_walk_then_blocked() {
    // 1x3 map: player, dirt, obstacle
    let mut game = Game::instanciate("P.o").unwrap();
    assert_eq!(game.player, (0, 0));
    assert!(game.process_player_input(Direction::Right));
    assert_eq!(game.player, (0, 1));
    assert!(!game.process_player_input(Direction::Right));
    assert_eq!(game.player, (0, 1));
}

#[test]
fn scenario_merge_small_onto_medium() {
    let mut game = Game::instanciate("Psm.").unwrap();
    assert!(game.process_player_input(Direction::Right));
    assert_eq!(game.player, (0, 1));
    assert_eq!(game.snowballs[cell(&game, 0, 1)], None);
    assert_eq!(game.snowballs[cell(&game, 0, 2)], Some(SnowBall::SmallOnMedium));
}

#[test]
fn scenario_growth_on_snow() {
    let mut game = Game::instanciate("Ps,.").unwrap();
    assert!(game.process_player_input(Direction::Right));
    assert_eq!(game.player, (0, 1));
    assert_eq!(game.snowballs[cell(&game, 0, 2)], Some(SnowBall::Medium));
    assert_eq!(game.tiles[cell(&game, 0, 2)], Tile::Dirt);
}

#[test]
fn scenario_large_stays_large_on_snow() {
    let mut game = Game::instanciate("Pl,.").unwrap();
    assert!(game.process_player_input(Direction::Right));
    assert_eq!(game.snowballs[cell(&game, 0, 2)], Some(SnowBall::Large));
    assert_eq!(game.tiles[cell(&game, 0, 2)], Tile::Dirt);
}

#[test]
fn no_growth_on_dirt() {
    let mut game = Game::instanciate("Ps..").unwrap();
    assert!(game.process_player_input(Direction::Right));
    assert_eq!(game.snowballs[cell(&game, 0, 2)], Some(SnowBall::Small));
    assert_eq!(game.tiles[cell(&game, 0, 2)], Tile::Dirt);
}

#[test]
fn composite_descends_player_stays() {
    // pushing a two-tier stack splits it: the larger tier stays, the smaller
    // moves on and grows on snow; the player does not advance
    let mut game = Game::instanciate("Px,.").unwrap();
    assert!(game.process_player_input(Direction::Right));
    assert_eq!(game.player, (0, 0));
    assert_eq!(game.snowballs[cell(&game, 0, 1)], Some(SnowBall::Medium));
    assert_eq!(game.snowballs[cell(&game, 0, 2)], Some(SnowBall::Medium));
    assert_eq!(game.tiles[cell(&game, 0, 2)], Tile::Dirt);
}

#[test]
fn unlisted_merges_rejected() {
    let mut game = Game::instanciate("Pmm.").unwrap();
    assert!(!game.process_player_input(Direction::Right));
    let mut game = Game::instanciate("Pls.").unwrap();
    assert!(!game.process_player_input(Direction::Right));
    let mut game = Game::instanciate("Pss.").unwrap();
    assert!(!game.process_player_input(Direction::Right));
    let mut game = Game::instanciate("Psx.").unwrap();
    assert!(!game.process_player_input(Direction::Right));
    let mut game = Game::instanciate("Pms.").unwrap();
    assert!(!game.process_player_input(Direction::Right));
}

#[test]
fn push_beyond_empty_tile_rejected() {
    // a push towards a cell beyond of Empty terrain is rejected outright
    let mut game = Game::instanciate("Ps .").unwrap();
    assert!(!game.process_player_input(Direction::Right));
    assert_eq!(game.player, (0, 0));
    assert_eq!(game.snowballs[cell(&game, 0, 1)], Some(SnowBall::Small));
}

#[test]
fn walking_onto_empty_tile_allowed() {
    let mut game = Game::instanciate("P .").unwrap();
    assert!(game.process_player_input(Direction::Right));
    assert_eq!(game.player, (0, 1));
}

#[test]
fn moves_out_of_bounds_rejected() {
    let mut game = Game::instanciate("P.o").unwrap();
    assert!(!game.process_player_input(Direction::Left));
    assert!(!game.process_player_input(Direction::Up));
    assert!(!game.process_player_input(Direction::Down));
    assert_eq!(game.player, (0, 0));
    assert_eq!(game.get_history(), "");
}

#[test]
fn push_beyond_bounds_rejected() {
    let mut game = Game::instanciate("Ps").unwrap();
    assert!(!game.process_player_input(Direction::Right));
    assert_eq!(game.snowballs[cell(&game, 0, 1)], Some(SnowBall::Small));
}

#[test]
fn snowman_built_and_immovable() {
    let mut game = Game::instanciate("P...\n..s.\n.ml.").unwrap();
    assert_eq!(game.snowmen_count(), 0);
    for dir in [
        Direction::Down,
        Direction::Down,
        Direction::Right,
        Direction::Up,
        Direction::Up,
        Direction::Right,
        Direction::Down,
    ] {
        assert!(game.process_player_input(dir));
    }
    assert_eq!(game.snowballs[cell(&game, 2, 2)], Some(SnowBall::Snowman));
    assert_eq!(game.snowmen_count(), 1);
    assert_eq!(game.player, (1, 2));
    // the terminal snowman blocks entry and cannot be pushed
    assert!(!game.process_player_input(Direction::Down));
    assert_eq!(game.get_history(), "DDRUURD");
}

#[test]
fn grow_one_tier() {
    assert_eq!(SnowBall::Small.grow(), Some(SnowBall::Medium));
    assert_eq!(SnowBall::Medium.grow(), Some(SnowBall::Large));
    assert_eq!(SnowBall::Large.grow(), Some(SnowBall::Large));
    assert_eq!(SnowBall::SmallOnMedium.grow(), None);
    assert_eq!(SnowBall::SmallOnLarge.grow(), None);
    assert_eq!(SnowBall::MediumOnLarge.grow(), None);
    assert_eq!(SnowBall::Snowman.grow(), None);
}

#[test]
fn blocking_tiles() {
    assert!(Tile::Hedge.blocks());
    assert!(Tile::Tree.blocks());
    assert!(Tile::Obstacle.blocks());
    assert!(!Tile::Empty.blocks());
    assert!(!Tile::Dirt.blocks());
    assert!(!Tile::Snow.blocks());
}

#[test]
fn tiles_from_chars() {
    assert_eq!(Tile::from_char(' '), Tile::Empty);
    assert_eq!(Tile::from_char('.'), Tile::Dirt);
    assert_eq!(Tile::from_char(','), Tile::Snow);
    assert_eq!(Tile::from_char('h'), Tile::Hedge);
    assert_eq!(Tile::from_char('#'), Tile::Hedge);
    assert_eq!(Tile::from_char('t'), Tile::Tree);
    assert_eq!(Tile::from_char('o'), Tile::Obstacle);
    assert_eq!(Tile::from_char('s'), Tile::Dirt);
    assert_eq!(Tile::from_char('S'), Tile::Snow);
    assert_eq!(Tile::from_char('P'), Tile::Empty);
}

#[test]
fn snowballs_from_chars() {
    assert_eq!(SnowBall::from_char('s'), Some(SnowBall::Small));
    assert_eq!(SnowBall::from_char('M'), Some(SnowBall::Medium));
    assert_eq!(SnowBall::from_char('l'), Some(SnowBall::Large));
    assert_eq!(SnowBall::from_char('X'), Some(SnowBall::SmallOnMedium));
    assert_eq!(SnowBall::from_char('.'), None);
    assert_eq!(SnowBall::from_char('P'), None);
}

#[test]
fn stepping_at_the_edges() {
    assert_eq!(snowcrab::try_step(0, 0, Direction::Up, 3, 3), None);
    assert_eq!(snowcrab::try_step(0, 0, Direction::Left, 3, 3), None);
    assert_eq!(snowcrab::try_step(0, 0, Direction::Right, 3, 3), Some((0, 1)));
    assert_eq!(snowcrab::try_step(0, 0, Direction::Down, 3, 3), Some((1, 0)));
    assert_eq!(snowcrab::try_step(2, 2, Direction::Down, 3, 3), None);
    assert_eq!(snowcrab::try_step(2, 2, Direction::Right, 3, 3), None);
}
