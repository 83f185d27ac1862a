//! A rectangular sub-view of the map, for a presentation layer that draws
//! only the cells inside it.

use vstd::prelude::*;

use crate::game::Game;

verus! {

broadcast use crate::game::lemma_game_view;

/// Side of one drawn tile, in pixels.
pub const TILE_SIDE: usize = 64;

/// Where the view starts within the window, as a base cell and an extent in
/// cells: all map cells inside the rectangle are drawn.
#[derive(Clone, Copy, PartialEq, Eq, Structural, Debug)]
pub struct Viewport {
    /// First drawn row.
    pub base_x: usize,
    /// First drawn column.
    pub base_y: usize,
    /// Number of rows that fit the window.
    pub len_x: usize,
    /// Number of columns that fit the window.
    pub len_y: usize,
}

/// The base coordinate that centers the view around the player along one
/// axis, clamped to the map.
pub open spec fn spec_centered_base(p: usize, len: usize, size: usize) -> usize
    recommends
        len <= size,
{
    let c = if p >= len / 2 {
        (p - len / 2) as usize
    } else {
        0usize
    };
    if c <= size - len {
        c
    } else {
        (size - len) as usize
    }
}

impl Viewport {
    /// A viewport sized to the window in pixels, first placed with the player
    /// towards its center, clamped to the map's upper-left corner.
    pub fn new(game: &Game, window_size: (usize, usize)) -> (r: Viewport)
        ensures
            r.len_x == window_size.0 / TILE_SIDE,
            r.len_y == window_size.1 / TILE_SIDE,
            r.base_x == if game@.player.0 >= r.len_x / 2 {
                game@.player.0 - r.len_x / 2
            } else {
                0
            },
            r.base_y == if game@.player.1 >= r.len_y / 2 {
                game@.player.1 - r.len_y / 2
            } else {
                0
            },
    {
        let len_x = window_size.0 / TILE_SIDE;
        let len_y = window_size.1 / TILE_SIDE;
        let base_x = if game.player.0 >= len_x / 2 {
            game.player.0 - len_x / 2
        } else {
            0
        };
        let base_y = if game.player.1 >= len_y / 2 {
            game.player.1 - len_y / 2
        } else {
            0
        };
        Viewport { base_x, base_y, len_x, len_y }
    }

    /// Re-center the view around the player's current cell, clamped to the
    /// map's extents on every side.
    pub fn center_around_player(&mut self, game: &Game)
        requires
            old(self).len_x <= game@.size_x,
            old(self).len_y <= game@.size_y,
        ensures
            final(self).len_x == old(self).len_x,
            final(self).len_y == old(self).len_y,
            final(self).base_x == spec_centered_base(game@.player.0, old(self).len_x, game@.size_x),
            final(self).base_y == spec_centered_base(game@.player.1, old(self).len_y, game@.size_y),
    {
        let cx = if game.player.0 >= self.len_x / 2 {
            game.player.0 - self.len_x / 2
        } else {
            0
        };
        self.base_x = if cx <= game.size_x - self.len_x {
            cx
        } else {
            game.size_x - self.len_x
        };
        let cy = if game.player.1 >= self.len_y / 2 {
            game.player.1 - self.len_y / 2
        } else {
            0
        };
        self.base_y = if cy <= game.size_y - self.len_y {
            cy
        } else {
            game.size_y - self.len_y
        };
    }
}

} // verus!
