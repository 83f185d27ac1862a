//! The move resolver: given a direction it decides legality and computes the
//! resulting change as a reversible diff, or rejects with no effect.

use vstd::prelude::*;

use crate::base::{
    char_of_dir, is_action_char, spec_blocks, spec_grow, spec_merge, spec_split, spec_try_step,
    try_step, update_wf, Direction, MapDiff, OneTileUpdate, SnowBall, Tile, Update,
};
use crate::game::{
    apply_update_spec, cell_index, lemma_apply_update_wf, push_bounded, Game, GameView,
    REWIND_CAPACITY,
};

verus! {

broadcast use crate::game::lemma_game_view;

/// The diff of a plain step onto a free cell: only the player moves.
pub open spec fn player_moves_spec(g: GameView, new_x: usize, new_y: usize) -> MapDiff {
    MapDiff {
        new: Update { player: (new_x, new_y), tiles: None },
        old: Update { player: g.player, tiles: None },
    }
}

/// The diff of pushing a snowball onto a free cell: the target cell loses its
/// occupant and gains the player, the free cell receives the (possibly
/// grown) ball, and consumed snow turns to dirt.
pub open spec fn player_pushes_snowball_spec(
    g: GameView,
    new_player_x: usize,
    new_player_y: usize,
    new_snowball_x: usize,
    new_snowball_y: usize,
    snowball_type: SnowBall,
    remove_snow: bool,
) -> MapDiff {
    MapDiff {
        new: Update {
            player: (new_player_x, new_player_y),
            tiles: Some(
                (
                    OneTileUpdate {
                        x: new_player_x,
                        y: new_player_y,
                        new_tile: None,
                        new_snowball: Some(None),
                    },
                    OneTileUpdate {
                        x: new_snowball_x,
                        y: new_snowball_y,
                        new_tile: if remove_snow {
                            Some(Tile::Dirt)
                        } else {
                            None
                        },
                        new_snowball: Some(Some(snowball_type)),
                    },
                ),
            ),
        },
        old: Update {
            player: g.player,
            tiles: Some(
                (
                    OneTileUpdate {
                        x: new_player_x,
                        y: new_player_y,
                        new_tile: None,
                        new_snowball: Some(g.ball_at(new_player_x, new_player_y)),
                    },
                    OneTileUpdate {
                        x: new_snowball_x,
                        y: new_snowball_y,
                        new_tile: if remove_snow {
                            Some(Tile::Snow)
                        } else {
                            None
                        },
                        new_snowball: Some(g.ball_at(new_snowball_x, new_snowball_y)),
                    },
                ),
            ),
        },
    }
}

/// The diff of a stack descending: the larger tier stays on the target cell,
/// the smaller (possibly grown) tier moves on, and the player stays put.
pub open spec fn snowball_descends_spec(
    g: GameView,
    still_snowball_x: usize,
    still_snowball_y: usize,
    still_snowball_type: SnowBall,
    moved_snowball_x: usize,
    moved_snowball_y: usize,
    moved_snowball_type: SnowBall,
    remove_snow: bool,
) -> MapDiff {
    MapDiff {
        new: Update {
            player: g.player,
            tiles: Some(
                (
                    OneTileUpdate {
                        x: still_snowball_x,
                        y: still_snowball_y,
                        new_tile: None,
                        new_snowball: Some(Some(still_snowball_type)),
                    },
                    OneTileUpdate {
                        x: moved_snowball_x,
                        y: moved_snowball_y,
                        new_tile: if remove_snow {
                            Some(Tile::Dirt)
                        } else {
                            None
                        },
                        new_snowball: Some(Some(moved_snowball_type)),
                    },
                ),
            ),
        },
        old: Update {
            player: g.player,
            tiles: Some(
                (
                    OneTileUpdate {
                        x: still_snowball_x,
                        y: still_snowball_y,
                        new_tile: None,
                        new_snowball: Some(g.ball_at(still_snowball_x, still_snowball_y)),
                    },
                    OneTileUpdate {
                        x: moved_snowball_x,
                        y: moved_snowball_y,
                        new_tile: if remove_snow {
                            Some(Tile::Snow)
                        } else {
                            None
                        },
                        new_snowball: Some(None),
                    },
                ),
            ),
        },
    }
}

/// The diff of a merging push: the target cell loses its occupant and gains
/// the player, the occupied cell beyond receives the merged stack.
pub open spec fn player_mounts_snowballs_spec(
    g: GameView,
    new_player_x: usize,
    new_player_y: usize,
    new_snowball_x: usize,
    new_snowball_y: usize,
    new_snowball_type: SnowBall,
) -> MapDiff {
    MapDiff {
        new: Update {
            player: (new_player_x, new_player_y),
            tiles: Some(
                (
                    OneTileUpdate {
                        x: new_player_x,
                        y: new_player_y,
                        new_tile: None,
                        new_snowball: Some(None),
                    },
                    OneTileUpdate {
                        x: new_snowball_x,
                        y: new_snowball_y,
                        new_tile: None,
                        new_snowball: Some(Some(new_snowball_type)),
                    },
                ),
            ),
        },
        old: Update {
            player: g.player,
            tiles: Some(
                (
                    OneTileUpdate {
                        x: new_player_x,
                        y: new_player_y,
                        new_tile: None,
                        new_snowball: Some(g.ball_at(new_player_x, new_player_y)),
                    },
                    OneTileUpdate {
                        x: new_snowball_x,
                        y: new_snowball_y,
                        new_tile: None,
                        new_snowball: Some(g.ball_at(new_snowball_x, new_snowball_y)),
                    },
                ),
            ),
        },
    }
}

/// The outcome of pushing the occupant of `(target_x, target_y)` one cell
/// further in `dir`: a diff, or `None` when the push is rejected.  The push
/// is rejected when the cell beyond leaves the grid, blocks, is `Empty`
/// terrain, holds a snowman, holds a ball the merge table rejects, or when
/// the pushed occupant is itself a snowman.
pub open spec fn try_push_spec(
    g: GameView,
    dir: Direction,
    target_x: usize,
    target_y: usize,
) -> Option<MapDiff> {
    match spec_try_step(target_x, target_y, dir, g.size_x, g.size_y) {
        None => None,
        Some((beyond_x, beyond_y)) => {
            let beyond_tile = g.tile_at(beyond_x, beyond_y);
            let beyond_ball = g.ball_at(beyond_x, beyond_y);
            if spec_blocks(beyond_tile) || beyond_ball == Some(SnowBall::Snowman) || beyond_tile
                == Tile::Empty {
                None
            } else {
                let target_snowball = g.ball_at(target_x, target_y)->Some_0;
                match beyond_ball {
                    Some(beyond_snowball) => match spec_merge(target_snowball, beyond_snowball) {
                        Some(mounted) => Some(
                            player_mounts_snowballs_spec(
                                g,
                                target_x,
                                target_y,
                                beyond_x,
                                beyond_y,
                                mounted,
                            ),
                        ),
                        None => None,
                    },
                    None => {
                        let beyond_is_snow = beyond_tile == Tile::Snow;
                        match spec_split(target_snowball) {
                            Some((still, moved)) => {
                                let pushed = if beyond_is_snow {
                                    spec_grow(moved)->Some_0
                                } else {
                                    moved
                                };
                                Some(
                                    snowball_descends_spec(
                                        g,
                                        target_x,
                                        target_y,
                                        still,
                                        beyond_x,
                                        beyond_y,
                                        pushed,
                                        beyond_is_snow,
                                    ),
                                )
                            },
                            None => {
                                if target_snowball == SnowBall::Snowman {
                                    None
                                } else {
                                    let pushed = if beyond_is_snow {
                                        spec_grow(target_snowball)->Some_0
                                    } else {
                                        target_snowball
                                    };
                                    Some(
                                        player_pushes_snowball_spec(
                                            g,
                                            target_x,
                                            target_y,
                                            beyond_x,
                                            beyond_y,
                                            pushed,
                                            beyond_is_snow,
                                        ),
                                    )
                                }
                            },
                        }
                    },
                }
            }
        },
    }
}

/// The outcome of one player input: a diff, or `None` when the move is
/// rejected.  The move is rejected when the target cell leaves the grid,
/// blocks entry, or holds a snowman, and when a push it starts is rejected.
pub open spec fn step_spec(g: GameView, dir: Direction) -> Option<MapDiff> {
    match spec_try_step(g.player.0, g.player.1, dir, g.size_x, g.size_y) {
        None => None,
        Some((x, y)) => {
            if spec_blocks(g.tile_at(x, y)) || g.ball_at(x, y) == Some(SnowBall::Snowman) {
                None
            } else if g.ball_at(x, y) is None {
                Some(player_moves_spec(g, x, y))
            } else {
                try_push_spec(g, dir, x, y)
            }
        },
    }
}

/// Whether a player input in direction `dir` is accepted in state `g`.
pub open spec fn move_enabled(g: GameView, dir: Direction) -> bool {
    step_spec(g, dir) is Some
}

/// The state after an accepted move, before the action log is extended: the
/// forward update is applied and the inverse update joins the undo queue.
pub open spec fn move_no_history_spec(g: GameView, dir: Direction) -> GameView
    recommends
        move_enabled(g, dir),
{
    let d = step_spec(g, dir)->Some_0;
    let g1 = apply_update_spec(g, d.new);
    GameView { queue: push_bounded(g.queue, d.old), ..g1 }
}

/// The state after an accepted move: as `move_no_history_spec`, with the
/// move's character appended to the action log.
pub open spec fn move_spec(g: GameView, dir: Direction) -> GameView
    recommends
        move_enabled(g, dir),
{
    let g1 = move_no_history_spec(g, dir);
    GameView { history: g.history.push(char_of_dir(dir)), ..g1 }
}

impl Game {
    /// Build the diff of a plain step onto the free cell `(new_x, new_y)`.
    fn player_moves(&self, new_x: usize, new_y: usize) -> (r: MapDiff)
        ensures
            r == player_moves_spec(self@, new_x, new_y),
    {
        MapDiff {
            new: Update { player: (new_x, new_y), tiles: None },
            old: Update { player: self.player, tiles: None },
        }
    }

    /// Build the diff of pushing a single-tier snowball onto a free cell.
    fn player_pushes_snowball(
        &self,
        new_player_x: usize,
        new_player_y: usize,
        new_snowball_x: usize,
        new_snowball_y: usize,
        snowball_type: SnowBall,
        remove_snow: bool,
    ) -> (r: MapDiff)
        requires
            self@.grid_wf(),
            new_player_x < self@.size_x,
            new_player_y < self@.size_y,
            new_snowball_x < self@.size_x,
            new_snowball_y < self@.size_y,
        ensures
            r == player_pushes_snowball_spec(
                self@,
                new_player_x,
                new_player_y,
                new_snowball_x,
                new_snowball_y,
                snowball_type,
                remove_snow,
            ),
    {
        let i0 = self.cell_idx(new_player_x, new_player_y);
        let i1 = self.cell_idx(new_snowball_x, new_snowball_y);
        let tile_0_next = OneTileUpdate {
            x: new_player_x,
            y: new_player_y,
            new_tile: None,
            new_snowball: Some(None),
        };
        let tile_0_prev = OneTileUpdate {
            x: new_player_x,
            y: new_player_y,
            new_tile: None,
            new_snowball: Some(self.snowballs[i0]),
        };
        let tile_1_next = OneTileUpdate {
            x: new_snowball_x,
            y: new_snowball_y,
            new_tile: if remove_snow {
                Some(Tile::Dirt)
            } else {
                None
            },
            new_snowball: Some(Some(snowball_type)),
        };
        let tile_1_prev = OneTileUpdate {
            x: new_snowball_x,
            y: new_snowball_y,
            new_tile: if remove_snow {
                Some(Tile::Snow)
            } else {
                None
            },
            new_snowball: Some(self.snowballs[i1]),
        };
        MapDiff {
            new: Update {
                player: (new_player_x, new_player_y),
                tiles: Some((tile_0_next, tile_1_next)),
            },
            old: Update {
                player: self.player,
                tiles: Some((tile_0_prev, tile_1_prev)),
            },
        }
    }

    /// Build the diff of a stack descending towards a free cell.
    fn snowball_descends(
        &self,
        still_snowball_x: usize,
        still_snowball_y: usize,
        still_snowball_type: SnowBall,
        moved_snowball_x: usize,
        moved_snowball_y: usize,
        moved_snowball_type: SnowBall,
        remove_snow: bool,
    ) -> (r: MapDiff)
        requires
            self@.grid_wf(),
            still_snowball_x < self@.size_x,
            still_snowball_y < self@.size_y,
            moved_snowball_x < self@.size_x,
            moved_snowball_y < self@.size_y,
        ensures
            r == snowball_descends_spec(
                self@,
                still_snowball_x,
                still_snowball_y,
                still_snowball_type,
                moved_snowball_x,
                moved_snowball_y,
                moved_snowball_type,
                remove_snow,
            ),
    {
        let i0 = self.cell_idx(still_snowball_x, still_snowball_y);
        let tile_0_next = OneTileUpdate {
            x: still_snowball_x,
            y: still_snowball_y,
            new_tile: None,
            new_snowball: Some(Some(still_snowball_type)),
        };
        let tile_0_prev = OneTileUpdate {
            x: still_snowball_x,
            y: still_snowball_y,
            new_tile: None,
            new_snowball: Some(self.snowballs[i0]),
        };
        let tile_1_next = OneTileUpdate {
            x: moved_snowball_x,
            y: moved_snowball_y,
            new_tile: if remove_snow {
                Some(Tile::Dirt)
            } else {
                None
            },
            new_snowball: Some(Some(moved_snowball_type)),
        };
        let tile_1_prev = OneTileUpdate {
            x: moved_snowball_x,
            y: moved_snowball_y,
            new_tile: if remove_snow {
                Some(Tile::Snow)
            } else {
                None
            },
            new_snowball: Some(None),
        };
        MapDiff {
            new: Update {
                player: self.player,
                tiles: Some((tile_0_next, tile_1_next)),
            },
            old: Update {
                player: self.player,
                tiles: Some((tile_0_prev, tile_1_prev)),
            },
        }
    }

    /// Build the diff of a merging push.
    fn player_mounts_snowballs(
        &self,
        new_player_x: usize,
        new_player_y: usize,
        new_snowball_x: usize,
        new_snowball_y: usize,
        new_snowball_type: SnowBall,
    ) -> (r: MapDiff)
        requires
            self@.grid_wf(),
            new_player_x < self@.size_x,
            new_player_y < self@.size_y,
            new_snowball_x < self@.size_x,
            new_snowball_y < self@.size_y,
        ensures
            r == player_mounts_snowballs_spec(
                self@,
                new_player_x,
                new_player_y,
                new_snowball_x,
                new_snowball_y,
                new_snowball_type,
            ),
    {
        let i0 = self.cell_idx(new_player_x, new_player_y);
        let i1 = self.cell_idx(new_snowball_x, new_snowball_y);
        let tile_0_next = OneTileUpdate {
            x: new_player_x,
            y: new_player_y,
            new_tile: None,
            new_snowball: Some(None),
        };
        let tile_0_prev = OneTileUpdate {
            x: new_player_x,
            y: new_player_y,
            new_tile: None,
            new_snowball: Some(self.snowballs[i0]),
        };
        let tile_1_next = OneTileUpdate {
            x: new_snowball_x,
            y: new_snowball_y,
            new_tile: None,
            new_snowball: Some(Some(new_snowball_type)),
        };
        let tile_1_prev = OneTileUpdate {
            x: new_snowball_x,
            y: new_snowball_y,
            new_tile: None,
            new_snowball: Some(self.snowballs[i1]),
        };
        MapDiff {
            new: Update {
                player: (new_player_x, new_player_y),
                tiles: Some((tile_0_next, tile_1_next)),
            },
            old: Update {
                player: self.player,
                tiles: Some((tile_0_prev, tile_1_prev)),
            },
        }
    }

    /// Attempt to push the occupant of the target cell one step further.
    fn try_push_snowball(&self, dir: Direction, target_x: usize, target_y: usize) -> (r: Option<
        MapDiff,
    >)
        requires
            self@.wf(),
            target_x < self@.size_x,
            target_y < self@.size_y,
            self@.ball_at(target_x, target_y) is Some,
        ensures
            r == try_push_spec(self@, dir, target_x, target_y),
            r matches Some(d) ==> update_wf(d.new, self@.size_x, self@.size_y) && update_wf(
                d.old,
                self@.size_x,
                self@.size_y,
            ),
    {
        if let Some((beyond_x, beyond_y)) = try_step(
            target_x,
            target_y,
            dir,
            self.size_x,
            self.size_y,
        ) {
            let ib = self.cell_idx(beyond_x, beyond_y);
            if self.tiles[ib].blocks() || self.snowballs[ib] == Some(SnowBall::Snowman)
                || self.tiles[ib] == Tile::Empty {
                return None;
            }
            let it = self.cell_idx(target_x, target_y);
            let target_snowball = match self.snowballs[it] {
                Some(b) => b,
                None => {
                    return None;
                },
            };
            if let Some(beyond_snowball) = self.snowballs[ib] {
                let result = match (target_snowball, beyond_snowball) {
                    (SnowBall::Small, SnowBall::Medium) => Some(SnowBall::SmallOnMedium),
                    (SnowBall::Small, SnowBall::Large) => Some(SnowBall::SmallOnLarge),
                    (SnowBall::Medium, SnowBall::Large) => Some(SnowBall::MediumOnLarge),
                    (SnowBall::Small, SnowBall::MediumOnLarge) => Some(SnowBall::Snowman),
                    _ => None,
                };
                match result {
                    Some(mounted_snowball) => Some(
                        self.player_mounts_snowballs(
                            target_x,
                            target_y,
                            beyond_x,
                            beyond_y,
                            mounted_snowball,
                        ),
                    ),
                    None => None,
                }
            } else {
                let beyond_is_snow = self.tiles[ib] == Tile::Snow;
                match target_snowball {
                    SnowBall::Small | SnowBall::Medium | SnowBall::Large => {
                        let new_snowball = if beyond_is_snow {
                            match target_snowball.grow() {
                                Some(b) => b,
                                None => target_snowball,
                            }
                        } else {
                            target_snowball
                        };
                        Some(
                            self.player_pushes_snowball(
                                target_x,
                                target_y,
                                beyond_x,
                                beyond_y,
                                new_snowball,
                                beyond_is_snow,
                            ),
                        )
                    },
                    SnowBall::SmallOnMedium | SnowBall::SmallOnLarge | SnowBall::MediumOnLarge => {
                        let (still_snowball, pushed_snowball): (SnowBall, SnowBall) =
                            match target_snowball {
                            SnowBall::SmallOnMedium => (SnowBall::Medium, SnowBall::Small),
                            SnowBall::SmallOnLarge => (SnowBall::Large, SnowBall::Small),
                            _ => (SnowBall::Large, SnowBall::Medium),
                        };
                        let pushed_snowball = if beyond_is_snow {
                            match pushed_snowball.grow() {
                                Some(b) => b,
                                None => pushed_snowball,
                            }
                        } else {
                            pushed_snowball
                        };
                        Some(
                            self.snowball_descends(
                                target_x,
                                target_y,
                                still_snowball,
                                beyond_x,
                                beyond_y,
                                pushed_snowball,
                                beyond_is_snow,
                            ),
                        )
                    },
                    SnowBall::Snowman => None,
                }
            }
        } else {
            None
        }
    }

    /// Resolve one player input into a diff, or reject it.
    fn step(&self, dir: Direction) -> (r: Option<MapDiff>)
        requires
            self@.wf(),
        ensures
            r == step_spec(self@, dir),
            r matches Some(d) ==> update_wf(d.new, self@.size_x, self@.size_y) && update_wf(
                d.old,
                self@.size_x,
                self@.size_y,
            ),
    {
        let (x0, y0) = self.player;
        let target = try_step(x0, y0, dir, self.size_x, self.size_y);
        if target.is_none() {
            return None;
        }
        let (x, y) = target.unwrap();
        let i = self.cell_idx(x, y);
        match (self.tiles[i].blocks(), self.snowballs[i]) {
            (true, _) => None,
            (false, Some(SnowBall::Snowman)) => None,
            (false, None) => Some(self.player_moves(x, y)),
            (false, Some(_)) => self.try_push_snowball(dir, x, y),
        }
    }

    /// Resolve and apply one player input without recording it to the action
    /// log; record its inverse on the undo queue, evicting the oldest entry
    /// at capacity.  Reports whether the state changed.
    pub(crate) fn process_player_input_no_history(&mut self, dir: Direction) -> (r: bool)
        requires
            old(self)@.wf(),
        ensures
            r == move_enabled(old(self)@, dir),
            r ==> final(self)@ == move_no_history_spec(old(self)@, dir),
            !r ==> final(self)@ == old(self)@,
            final(self)@.wf(),
    {
        if let Some(map_diff) = self.step(dir) {
            if self.rewind_queue.len() >= REWIND_CAPACITY {
                self.rewind_queue.pop_front();
                proof {
                    assert forall|i: int|
                        0 <= i < self.rewind_queue@.len() implies update_wf(
                        #[trigger] self.rewind_queue@[i],
                        self@.size_x,
                        self@.size_y,
                    ) by {
                        assert(self.rewind_queue@[i] == old(self)@.queue[i + 1]);
                    }
                }
            }
            proof {
                assert forall|i: int|
                    0 <= i < self@.history.len() implies is_action_char(
                    #[trigger] self@.history[i],
                ) by {
                    assert(self@.history[i] == old(self)@.history[i]);
                }
                assert(self@.wf());
            }
            self.apply_update(&map_diff.new);
            self.rewind_queue.push_back(map_diff.old);
            proof {
                assert(final(self)@ =~= move_no_history_spec(old(self)@, dir));
            }
            true
        } else {
            false
        }
    }

    /// Resolve, apply and record one player input.  On success the move's
    /// character joins the action log; a rejected move changes nothing.
    pub fn process_player_input(&mut self, dir: Direction) -> (r: bool)
        requires
            old(self)@.wf(),
        ensures
            r == move_enabled(old(self)@, dir),
            r ==> final(self)@ == move_spec(old(self)@, dir),
            !r ==> final(self)@ == old(self)@,
            final(self)@.wf(),
    {
        if self.process_player_input_no_history(dir) {
            self.push_history_char(dir.to_str());
            proof {
                assert(final(self)@ =~= move_spec(old(self)@, dir));
            }
            true
        } else {
            false
        }
    }
}

} // verus!
