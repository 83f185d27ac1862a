//! The engine instance: grid state, the bounded undo queue and the
//! append-only action log, together with the mathematical model that the
//! contracts speak of.

use std::collections::VecDeque;
use vstd::prelude::*;
use vstd::string::{StrSliceExecFns, StringExecFns};

use crate::base::{is_action_char, unit_update_wf, update_wf, OneTileUpdate, SnowBall, Tile, Update};

verus! {

/// How many inverse updates the undo queue retains.  When a move would push
/// it past this bound, the oldest entry is evicted: rewind depth is bounded
/// and the oldest undo information is irrecoverably lost past this horizon.
pub const REWIND_CAPACITY: usize = 2048;

/// The mathematical value of an engine instance: the grid extents, the
/// current and originally-parsed cell contents, the player coordinate, the
/// undo queue and the action log.
#[verifier::ext_equal]
pub ghost struct GameView {
    /// Number of rows.  The row coordinate `x` counts downwards.
    pub size_x: usize,
    /// Number of columns.  The column coordinate `y` counts rightwards.
    pub size_y: usize,
    /// Terrain of each cell, row by row: cell `(x, y)` is at `x * size_y + y`.
    pub tiles: Seq<Tile>,
    /// Occupant of each cell, indexed as `tiles`.
    pub snowballs: Seq<Option<SnowBall>>,
    /// The player's cell.
    pub player: (usize, usize),
    /// Terrain as parsed from the level asset, the reference for resets.
    pub orig_tiles: Seq<Tile>,
    /// Occupants as parsed from the level asset.
    pub orig_snowballs: Seq<Option<SnowBall>>,
    /// Inverse updates of the most recent moves, oldest first.
    pub queue: Seq<Update>,
    /// One character per accepted action, in order.
    pub history: Seq<char>,
}

/// Position of cell `(x, y)` in the row-by-row cell sequences.
pub open spec fn cell_index(size_y: usize, x: usize, y: usize) -> int {
    x * size_y + y
}

/// A cell's index lies inside the sequences, and the cell can be recovered
/// from it by division and remainder.
pub proof fn lemma_cell_index_props(size_x: usize, size_y: usize, x: usize, y: usize)
    requires
        x < size_x,
        y < size_y,
    ensures
        0 <= cell_index(size_y, x, y) < size_x * size_y,
        cell_index(size_y, x, y) / (size_y as int) == x,
        cell_index(size_y, x, y) % (size_y as int) == y,
{
    let i = cell_index(size_y, x, y);
    vstd::arithmetic::mul::lemma_mul_inequality(x as int + 1, size_x as int, size_y as int);
    vstd::arithmetic::mul::lemma_mul_is_distributive_add_other_way(
        size_y as int,
        x as int,
        1,
    );
    vstd::arithmetic::div_mod::lemma_fundamental_div_mod_converse(
        i,
        size_y as int,
        x as int,
        y as int,
    );
}

/// Two distinct in-bounds cells have distinct indices.
pub proof fn lemma_cell_index_injective(
    size_x: usize,
    size_y: usize,
    x1: usize,
    y1: usize,
    x2: usize,
    y2: usize,
)
    requires
        x1 < size_x,
        y1 < size_y,
        x2 < size_x,
        y2 < size_y,
        cell_index(size_y, x1, y1) == cell_index(size_y, x2, y2),
    ensures
        x1 == x2 && y1 == y2,
{
    lemma_cell_index_props(size_x, size_y, x1, y1);
    lemma_cell_index_props(size_x, size_y, x2, y2);
}

impl GameView {
    /// The part of well-formedness that cell access rests on: positive
    /// extents within the supported limit and cell sequences of matching
    /// length.
    pub open spec fn grid_wf(self) -> bool {
        &&& 0 < self.size_x <= 999
        &&& 0 < self.size_y <= 999
        &&& self.tiles.len() == self.size_x * self.size_y
        &&& self.snowballs.len() == self.size_x * self.size_y
    }

    /// Well-formedness: positive extents within the supported limit, cell
    /// sequences of matching length, an in-bounds player, a bounded undo
    /// queue of in-bounds updates, and an action log over its alphabet.
    pub open spec fn wf(self) -> bool {
        &&& self.grid_wf()
        &&& self.orig_tiles.len() == self.size_x * self.size_y
        &&& self.orig_snowballs.len() == self.size_x * self.size_y
        &&& self.player.0 < self.size_x && self.player.1 < self.size_y
        &&& self.queue.len() <= REWIND_CAPACITY
        &&& forall|i: int|
            0 <= i < self.queue.len() ==> update_wf(
                #[trigger] self.queue[i],
                self.size_x,
                self.size_y,
            )
        &&& forall|i: int| 0 <= i < self.history.len() ==> is_action_char(#[trigger] self.history[i])
    }

    /// The terrain of cell `(x, y)`.
    pub open spec fn tile_at(self, x: usize, y: usize) -> Tile {
        self.tiles[cell_index(self.size_y, x, y)]
    }

    /// The occupant of cell `(x, y)`.
    pub open spec fn ball_at(self, x: usize, y: usize) -> Option<SnowBall> {
        self.snowballs[cell_index(self.size_y, x, y)]
    }
}

/// The grid state after one per-cell delta: attributes that the delta leaves
/// out are untouched.
pub open spec fn apply_unit_update_spec(g: GameView, u: OneTileUpdate) -> GameView {
    let i = cell_index(g.size_y, u.x, u.y);
    GameView {
        tiles: match u.new_tile {
            Some(t) => g.tiles.update(i, t),
            None => g.tiles,
        },
        snowballs: match u.new_snowball {
            Some(s) => g.snowballs.update(i, s),
            None => g.snowballs,
        },
        ..g
    }
}

/// The grid state after an update: the player moves to the recorded
/// coordinate and the per-cell deltas, if any, are applied in order.  The
/// originals, the undo queue and the action log are untouched.
pub open spec fn apply_update_spec(g: GameView, u: Update) -> GameView {
    let g1 = GameView { player: u.player, ..g };
    match u.tiles {
        None => g1,
        Some((a, b)) => apply_unit_update_spec(apply_unit_update_spec(g1, a), b),
    }
}

/// How the undo queue takes one more inverse update: at capacity, the oldest
/// entry is evicted first.
pub open spec fn push_bounded(q: Seq<Update>, u: Update) -> Seq<Update> {
    if q.len() >= REWIND_CAPACITY {
        q.drop_first().push(u)
    } else {
        q.push(u)
    }
}

/// Applying an in-bounds update preserves well-formedness of everything but
/// the player bound, which the update's own recorded coordinate supplies.
pub proof fn lemma_apply_update_wf(g: GameView, u: Update)
    requires
        g.wf(),
        update_wf(u, g.size_x, g.size_y),
    ensures
        apply_update_spec(g, u).wf(),
{
    if let Some((a, b)) = u.tiles {
        lemma_cell_index_props(g.size_x, g.size_y, a.x, a.y);
        lemma_cell_index_props(g.size_x, g.size_y, b.x, b.y);
    }
    let r = apply_update_spec(g, u);
    assert(r.tiles.len() == g.tiles.len());
    assert(r.snowballs.len() == g.snowballs.len());
}

/// A turn-based pushing-puzzle engine over a fixed rectangular grid.  Mutated
/// in place by successful moves, rewinds and resets; rejected operations
/// leave every part of it untouched.
#[derive(Debug)]
pub struct Game {
    /// Terrain of each cell, row by row.
    pub tiles: Vec<Tile>,
    /// Occupant of each cell, row by row.
    pub snowballs: Vec<Option<SnowBall>>,
    /// The player's cell, `(row, column)`.
    pub player: (usize, usize),
    /// Number of rows, fixed at load time.
    pub size_x: usize,
    /// Number of columns, fixed at load time.
    pub size_y: usize,
    pub(crate) orig_tiles: Vec<Tile>,
    pub(crate) orig_snowballs: Vec<Option<SnowBall>>,
    pub(crate) rewind_queue: VecDeque<Update>,
    pub(crate) input_history: String,
}

impl View for Game {
    type V = GameView;

    closed spec fn view(&self) -> GameView {
        GameView {
            size_x: self.size_x,
            size_y: self.size_y,
            tiles: self.tiles@,
            snowballs: self.snowballs@,
            player: self.player,
            orig_tiles: self.orig_tiles@,
            orig_snowballs: self.orig_snowballs@,
            queue: self.rewind_queue@,
            history: self.input_history@,
        }
    }
}

/// Within the crate, the view of an engine is its fields' views.
pub(crate) broadcast proof fn lemma_game_view(g: &Game)
    ensures
        (#[trigger] g@) == (GameView {
            size_x: g.size_x,
            size_y: g.size_y,
            tiles: g.tiles@,
            snowballs: g.snowballs@,
            player: g.player,
            orig_tiles: g.orig_tiles@,
            orig_snowballs: g.orig_snowballs@,
            queue: g.rewind_queue@,
            history: g.input_history@,
        }),
{
}

impl Game {
    /// Position of cell `(x, y)` in the flat cell vectors.
    pub fn cell_idx(&self, x: usize, y: usize) -> (i: usize)
        requires
            self@.grid_wf(),
            x < self@.size_x,
            y < self@.size_y,
        ensures
            i == cell_index(self@.size_y, x, y),
            i < self@.tiles.len(),
    {
        proof {
            lemma_cell_index_props(self.size_x, self.size_y, x, y);
            vstd::arithmetic::mul::lemma_mul_upper_bound(
                self.size_x as int,
                999,
                self.size_y as int,
                999,
            );
        }
        x * self.size_y + y
    }

    /// Overwrite the attributes of one cell that the delta carries; leave
    /// the other attributes, and every other cell, alone.
    pub(crate) fn apply_unit_update(&mut self, u: &OneTileUpdate)
        requires
            old(self)@.grid_wf(),
            unit_update_wf(*u, old(self)@.size_x, old(self)@.size_y),
        ensures
            final(self)@ == apply_unit_update_spec(old(self)@, *u),
    {
        let i = self.cell_idx(u.x, u.y);
        if let Some(tile) = u.new_tile {
            self.tiles.set(i, tile);
        }
        if let Some(snowball_opt) = u.new_snowball {
            self.snowballs.set(i, snowball_opt);
        }
        proof {
            assert(final(self)@ =~= apply_unit_update_spec(old(self)@, *u));
        }
    }

    /// Move the player to the update's coordinate and apply its per-cell
    /// deltas.
    pub(crate) fn apply_update(&mut self, update: &Update)
        requires
            old(self)@.wf(),
            update_wf(*update, old(self)@.size_x, old(self)@.size_y),
        ensures
            final(self)@ == apply_update_spec(old(self)@, *update),
            final(self)@.wf(),
    {
        proof {
            lemma_apply_update_wf(old(self)@, *update);
        }
        self.player = update.player;
        if let Some((tile0, tile1)) = &update.tiles {
            proof {
                lemma_cell_index_props(self.size_x, self.size_y, tile0.x, tile0.y);
            }
            self.apply_unit_update(tile0);
            proof {
                assert(self@.grid_wf());
            }
            self.apply_unit_update(tile1);
        }
        proof {
            assert(final(self)@ =~= apply_update_spec(old(self)@, *update));
        }
    }

    /// The recorded action log, one character per accepted action.
    pub fn get_history(&self) -> (r: &str)
        ensures
            r@ == self@.history,
    {
        self.input_history.as_str()
    }

    /// Append one character of the action alphabet, given as a one-character
    /// string, to the action log.
    pub(crate) fn push_history_char(&mut self, s: &str)
        requires
            old(self)@.wf(),
            s@.len() == 1,
            is_action_char(s@[0]),
        ensures
            final(self)@ == (GameView { history: old(self)@.history.push(s@[0]), ..old(self)@ }),
            final(self)@.wf(),
    {
        self.input_history.append(s);
        proof {
            assert(self.input_history@ =~= old(self)@.history.push(s@[0]));
            assert(final(self)@ =~= (GameView {
                history: old(self)@.history.push(s@[0]),
                ..old(self)@
            }));
            assert forall|i: int|
                0 <= i < self@.history.len() implies is_action_char(
                #[trigger] self@.history[i],
            ) by {
                if i < self@.history.len() - 1 {
                    assert(self@.history[i] == old(self)@.history[i]);
                }
            }
            assert(self@.wf());
        }
    }

    /// Remove the newest inverse update from the undo queue and apply it,
    /// dropping the undone action's character from the log; fail, changing
    /// nothing, when the queue is exhausted.
    pub fn rewind(&mut self) -> (r: bool)
        requires
            old(self)@.wf(),
        ensures
            r == rewind_enabled(old(self)@),
            r ==> final(self)@ == rewind_spec(old(self)@),
            !r ==> final(self)@ == old(self)@,
            final(self)@.wf(),
    {
        if let Some(update) = self.rewind_queue.pop_back() {
            proof {
                assert(update == old(self)@.queue[old(self)@.queue.len() - 1]);
                assert forall|i: int|
                    0 <= i < self.rewind_queue@.len() implies crate::base::update_wf(
                    #[trigger] self.rewind_queue@[i],
                    self@.size_x,
                    self@.size_y,
                ) by {
                    assert(self.rewind_queue@[i] == old(self)@.queue[i]);
                }
                assert forall|i: int|
                    0 <= i < self@.history.len() implies is_action_char(
                    #[trigger] self@.history[i],
                ) by {
                    assert(self@.history[i] == old(self)@.history[i]);
                }
                assert(self@.wf());
            }
            self.apply_update(&update);
            let n = self.input_history.as_str().unicode_len();
            if n > 0 {
                let shorter = {
                    let whole = self.input_history.as_str();
                    let head = whole.substring_char(0, n - 1);
                    head.to_owned()
                };
                self.input_history = shorter;
                proof {
                    assert(old(self)@.history.subrange(0, old(self)@.history.len() - 1)
                        =~= old(self)@.history.drop_last());
                }
            }
            proof {
                assert(self@ =~= rewind_spec(old(self)@));
                assert forall|i: int|
                    0 <= i < self@.history.len() implies is_action_char(
                    #[trigger] self@.history[i],
                ) by {
                    assert(self@.history[i] == old(self)@.history[i]);
                }
                assert(self@.wf());
            }
            true
        } else {
            false
        }
    }
}

/// Whether a rewind is accepted: the undo queue still holds an entry.
pub open spec fn rewind_enabled(g: GameView) -> bool {
    g.queue.len() > 0
}

/// The state after an accepted rewind: the newest inverse update is applied
/// and removed, and the undone action's character leaves the action log.
pub open spec fn rewind_spec(g: GameView) -> GameView
    recommends
        rewind_enabled(g),
{
    let g1 = apply_update_spec(g, g.queue.last());
    GameView {
        queue: g.queue.drop_last(),
        history: if g.history.len() > 0 {
            g.history.drop_last()
        } else {
            g.history
        },
        ..g1
    }
}

/// How many cells hold the terminal snowman, in the first `s.len()` cells.
pub open spec fn count_snowmen(s: Seq<Option<SnowBall>>) -> nat
    decreases s.len(),
{
    if s.len() == 0 {
        0
    } else {
        count_snowmen(s.drop_last()) + if s.last() == Some(SnowBall::Snowman) {
            1nat
        } else {
            0nat
        }
    }
}

impl Game {
    /// Count of cells whose occupant is the terminal snowman, for
    /// end-of-session reporting.
    pub fn snowmen_count(&self) -> (r: usize)
        requires
            self@.wf(),
        ensures
            r == count_snowmen(self@.snowballs),
    {
        let mut count: usize = 0;
        let n = self.snowballs.len();
        for i in 0..n
            invariant
                n == self@.snowballs.len(),
                count == count_snowmen(self@.snowballs.take(i as int)),
                count <= i,
        {
            proof {
                assert(self@.snowballs.take(i + 1).drop_last() =~= self@.snowballs.take(i as int));
                assert(self@.snowballs.take(i + 1).last() == self@.snowballs[i as int]);
            }
            let here = self.snowballs[i];
            if let Some(b) = here {
                if b == SnowBall::Snowman {
                    count = count + 1;
                }
            }
        }
        proof {
            assert(self@.snowballs.take(n as int) =~= self@.snowballs);
        }
        count
    }
}

} // verus!
