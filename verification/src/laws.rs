//! The engine's laws, stated and proved over the same spec functions that the
//! public contracts use.

use vstd::prelude::*;

use crate::base::{
    spec_blocks, spec_grow, spec_merge, spec_try_step, Direction, MapDiff, SnowBall, Tile,
};
use crate::base::{char_of_dir, dir_of_char, is_action_char, is_history_char, update_wf, Update};
use crate::game::{
    apply_update_spec, cell_index, lemma_apply_update_wf, lemma_cell_index_injective,
    lemma_cell_index_props, push_bounded, GameView, REWIND_CAPACITY,
};
use crate::history::{action_enabled, replay_clean, replay_spec, replay_step};
use crate::reset::{
    adjacent, cell_differs, lemma_idx_to_cell, reach_n, reachable, reset_apply_spec, reset_enabled,
    reset_grid_spec, reset_no_history_spec,
};
use crate::resolver::{
    move_enabled, move_no_history_spec, move_spec, player_mounts_snowballs_spec, step_spec,
    try_push_spec,
};

verus! {

/// Applying the diff's forward update and then its inverse update returns to
/// the starting state, in every field.
pub open spec fn round_trips(g: GameView, d: MapDiff) -> bool {
    apply_update_spec(apply_update_spec(g, d.new), d.old) == g
}

/// Round-trip law: every diff that the resolver accepts, applied forwards and
/// then backwards, yields the starting state unchanged in every field.
pub proof fn lemma_diff_round_trip(g: GameView, dir: Direction)
    requires
        g.wf(),
        move_enabled(g, dir),
    ensures
        round_trips(g, step_spec(g, dir)->Some_0),
{
    let d = step_spec(g, dir)->Some_0;
    let (x, y) = spec_try_step(g.player.0, g.player.1, dir, g.size_x, g.size_y)->Some_0;
    lemma_cell_index_props(g.size_x, g.size_y, x, y);
    if g.ball_at(x, y) is None {
        assert(apply_update_spec(apply_update_spec(g, d.new), d.old) =~= g);
    } else {
        let (bx, by) = spec_try_step(x, y, dir, g.size_x, g.size_y)->Some_0;
        lemma_cell_index_props(g.size_x, g.size_y, bx, by);
        assert((bx, by) != (x, y));
        if cell_index(g.size_y, x, y) == cell_index(g.size_y, bx, by) {
            lemma_cell_index_injective(g.size_x, g.size_y, x, y, bx, by);
        }
        assert(apply_update_spec(apply_update_spec(g, d.new), d.old) =~= g);
    }
}

/// Merge-table law: the result of pushing one snowball kind onto another is
/// exactly the four-line table, and every unlisted ordered pair is rejected.
pub proof fn lemma_merge_table(target: SnowBall, beyond: SnowBall)
    ensures
        spec_merge(target, beyond) == (if target == SnowBall::Small && beyond == SnowBall::Medium {
            Some(SnowBall::SmallOnMedium)
        } else if target == SnowBall::Small && beyond == SnowBall::Large {
            Some(SnowBall::SmallOnLarge)
        } else if target == SnowBall::Medium && beyond == SnowBall::Large {
            Some(SnowBall::MediumOnLarge)
        } else if target == SnowBall::Small && beyond == SnowBall::MediumOnLarge {
            Some(SnowBall::Snowman)
        } else {
            None
        }),
{
}

/// Merge-table law at the resolver: when the player pushes the snowball on
/// the target cell towards an occupied, enterable cell beyond, the move is
/// accepted exactly on a merge-table hit, and then merges the two occupants.
pub proof fn lemma_push_outcome_matches_merge_table(g: GameView, dir: Direction)
    requires
        g.wf(),
        spec_try_step(g.player.0, g.player.1, dir, g.size_x, g.size_y) is Some,
        ({
            let (x, y) = spec_try_step(g.player.0, g.player.1, dir, g.size_x, g.size_y)->Some_0;
            &&& !spec_blocks(g.tile_at(x, y))
            &&& g.ball_at(x, y) is Some
            &&& g.ball_at(x, y) != Some(SnowBall::Snowman)
            &&& spec_try_step(x, y, dir, g.size_x, g.size_y) is Some
        }),
        ({
            let (x, y) = spec_try_step(g.player.0, g.player.1, dir, g.size_x, g.size_y)->Some_0;
            let (bx, by) = spec_try_step(x, y, dir, g.size_x, g.size_y)->Some_0;
            &&& !spec_blocks(g.tile_at(bx, by))
            &&& g.tile_at(bx, by) != Tile::Empty
            &&& g.ball_at(bx, by) is Some
            &&& g.ball_at(bx, by) != Some(SnowBall::Snowman)
        }),
    ensures
        ({
            let (x, y) = spec_try_step(g.player.0, g.player.1, dir, g.size_x, g.size_y)->Some_0;
            let (bx, by) = spec_try_step(x, y, dir, g.size_x, g.size_y)->Some_0;
            step_spec(g, dir) == match spec_merge(g.ball_at(x, y)->Some_0, g.ball_at(bx, by)->Some_0) {
                Some(merged) => Some(player_mounts_snowballs_spec(g, x, y, bx, by, merged)),
                None => None,
            }
        }),
{
}

/// Growth law: pushing a single-tier snowball onto an unoccupied, enterable
/// cell is accepted; on a `Snow` tile the ball grows exactly one tier
/// (`Large` stays `Large`) and the tile becomes `Dirt`, on any other tile the
/// ball and the tile are kept.
pub proof fn lemma_growth_rule(g: GameView, dir: Direction)
    requires
        g.wf(),
        move_enabled(g, dir),
        ({
            let (x, y) = spec_try_step(g.player.0, g.player.1, dir, g.size_x, g.size_y)->Some_0;
            &&& (g.ball_at(x, y) == Some(SnowBall::Small) || g.ball_at(x, y) == Some(
                SnowBall::Medium,
            ) || g.ball_at(x, y) == Some(SnowBall::Large))
            &&& spec_try_step(x, y, dir, g.size_x, g.size_y) is Some
            &&& g.ball_at(spec_try_step(x, y, dir, g.size_x, g.size_y)->Some_0.0,
                spec_try_step(x, y, dir, g.size_x, g.size_y)->Some_0.1) is None
        }),
    ensures
        ({
            let (x, y) = spec_try_step(g.player.0, g.player.1, dir, g.size_x, g.size_y)->Some_0;
            let (bx, by) = spec_try_step(x, y, dir, g.size_x, g.size_y)->Some_0;
            let ball = g.ball_at(x, y)->Some_0;
            let after = apply_update_spec(g, step_spec(g, dir)->Some_0.new);
            &&& after.player == (x, y)
            &&& after.ball_at(x, y) is None
            &&& (g.tile_at(bx, by) == Tile::Snow ==> after.ball_at(bx, by) == Some(
                spec_grow(ball)->Some_0,
            ) && after.tile_at(bx, by) == Tile::Dirt)
            &&& (g.tile_at(bx, by) != Tile::Snow ==> after.ball_at(bx, by) == Some(ball)
                && after.tile_at(bx, by) == g.tile_at(bx, by))
        }),
{
    let (x, y) = spec_try_step(g.player.0, g.player.1, dir, g.size_x, g.size_y)->Some_0;
    let (bx, by) = spec_try_step(x, y, dir, g.size_x, g.size_y)->Some_0;
    lemma_cell_index_props(g.size_x, g.size_y, x, y);
    lemma_cell_index_props(g.size_x, g.size_y, bx, by);
    if cell_index(g.size_y, x, y) == cell_index(g.size_y, bx, by) {
        lemma_cell_index_injective(g.size_x, g.size_y, x, y, bx, by);
    }
}

/// Bounds law: a move whose target cell would leave the grid is rejected,
/// and a push whose beyond cell would leave the grid is rejected.
pub proof fn lemma_bounds_rejected(g: GameView, dir: Direction)
    requires
        g.wf(),
    ensures
        spec_try_step(g.player.0, g.player.1, dir, g.size_x, g.size_y) is None ==> step_spec(
            g,
            dir,
        ) is None,
        (spec_try_step(g.player.0, g.player.1, dir, g.size_x, g.size_y) matches Some((x, y))
            && g.ball_at(x, y) is Some && spec_try_step(x, y, dir, g.size_x, g.size_y) is None)
            ==> step_spec(g, dir) is None,
{
}

/// History-bound law: an accepted move never lets the undo queue grow past
/// its capacity, and at capacity it evicts exactly the oldest entry.
pub proof fn lemma_history_bound(g: GameView, dir: Direction)
    requires
        g.wf(),
        move_enabled(g, dir),
    ensures
        move_spec(g, dir).queue.len() <= REWIND_CAPACITY,
        g.queue.len() < REWIND_CAPACITY ==> move_spec(g, dir).queue == g.queue.push(
            step_spec(g, dir)->Some_0.old,
        ),
        g.queue.len() == REWIND_CAPACITY ==> move_spec(g, dir).queue == g.queue.drop_first().push(
            step_spec(g, dir)->Some_0.old,
        ),
{
}


/// Reset-scope law: a reset changes no cell outside the player's connected
/// sub-level — such cells are bit-identical before and after — and restores
/// every cell inside it to its originally parsed contents, without moving
/// the player.
pub proof fn lemma_reset_scope(g: GameView, x: usize, y: usize)
    requires
        g.wf(),
        x < g.size_x,
        y < g.size_y,
    ensures
        !reachable(g, (x, y)) ==> reset_apply_spec(g).tiles[cell_index(g.size_y, x, y)]
            == g.tiles[cell_index(g.size_y, x, y)] && reset_apply_spec(g).snowballs[cell_index(
            g.size_y,
            x,
            y,
        )] == g.snowballs[cell_index(g.size_y, x, y)],
        reachable(g, (x, y)) ==> reset_apply_spec(g).tiles[cell_index(g.size_y, x, y)]
            == g.orig_tiles[cell_index(g.size_y, x, y)] && reset_apply_spec(g).snowballs[
            cell_index(g.size_y, x, y)
        ] == g.orig_snowballs[cell_index(g.size_y, x, y)],
        reset_apply_spec(g).player == g.player,
{
    lemma_cell_index_props(g.size_x, g.size_y, x, y);
    lemma_idx_to_cell(g, cell_index(g.size_y, x, y));
}

/// Reset-clears-undo law: immediately after an accepted reset the undo queue
/// is empty, so a rewind is rejected.
pub proof fn lemma_reset_clears_undo(g: GameView)
    requires
        g.wf(),
        reset_enabled(g),
    ensures
        reset_apply_spec(g).queue.len() == 0,
        !crate::game::rewind_enabled(reset_apply_spec(g)),
{
}


/// Record/replay agreement for moves: replaying the one character that an
/// accepted move records, from the same state, yields exactly the state the
/// live move produced.
pub proof fn lemma_record_replay_move(g: GameView, dir: Direction)
    requires
        g.wf(),
        move_enabled(g, dir),
    ensures
        replay_spec(g, seq![char_of_dir(dir)]) == move_spec(g, dir),
{
    let s = seq![char_of_dir(dir)];
    let c = char_of_dir(dir);
    assert(s.len() == 1 && s[0] == c);
    assert(s.drop_first() =~= Seq::<char>::empty());
    assert(c == 'U' || c == 'L' || c == 'D' || c == 'R');
    assert(dir_of_char(c) == dir);
    assert(action_enabled(g, c));
    assert(replay_step(g, c) =~= move_spec(g, dir));
    assert(replay_spec(g, s) == replay_spec(replay_step(g, c), s.drop_first()));
    assert(replay_spec(replay_step(g, c), s.drop_first()) == replay_step(g, c));
}

/// Record/replay agreement for resets: replaying the reset marker, from the
/// same state, yields exactly the state the live reset produced.
pub proof fn lemma_record_replay_reset(g: GameView)
    requires
        g.wf(),
        reset_enabled(g),
    ensures
        replay_spec(g, seq!['T']) == reset_apply_spec(g),
{
    let s = seq!['T'];
    assert(s.len() == 1 && s[0] == 'T');
    assert(s.drop_first() =~= Seq::<char>::empty());
    assert(action_enabled(g, 'T'));
    assert(replay_step(g, 'T') =~= reset_apply_spec(g));
    assert(replay_spec(g, s) == replay_spec(replay_step(g, 'T'), s.drop_first()));
    assert(replay_spec(replay_step(g, 'T'), s.drop_first()) == replay_step(g, 'T'));
}

/// Replay composes action by action: a string that replays without
/// divergence, followed by anything, replays as the two parts in order.
pub proof fn lemma_replay_append(g: GameView, s1: Seq<char>, s2: Seq<char>)
    requires
        replay_clean(g, s1),
    ensures
        replay_spec(g, s1 + s2) == replay_spec(replay_spec(g, s1), s2),
    decreases s1.len(),
{
    if s1.len() == 0 {
        assert(s1 + s2 =~= s2);
    } else {
        assert((s1 + s2).drop_first() =~= s1.drop_first() + s2);
        if s1[0] == '\n' {
            lemma_replay_append(g, s1.drop_first(), s2);
        } else {
            lemma_replay_append(replay_step(g, s1[0]), s1.drop_first(), s2);
        }
    }
}

/// The dynamic part of two states agrees: same terrain, same occupants, same
/// player cell.
pub open spec fn dyn_eq(a: GameView, b: GameView) -> bool {
    &&& a.tiles == b.tiles
    &&& a.snowballs == b.snowballs
    &&& a.player == b.player
}

/// An accepted diff stays inside the grid.
pub proof fn lemma_step_spec_in_bounds(g: GameView, dir: Direction)
    requires
        g.wf(),
        step_spec(g, dir) is Some,
    ensures
        update_wf(step_spec(g, dir)->Some_0.new, g.size_x, g.size_y),
        update_wf(step_spec(g, dir)->Some_0.old, g.size_x, g.size_y),
{
}

/// An accepted move preserves well-formedness.
pub proof fn lemma_move_spec_wf(g: GameView, dir: Direction)
    requires
        g.wf(),
        move_enabled(g, dir),
    ensures
        move_no_history_spec(g, dir).wf(),
        move_spec(g, dir).wf(),
{
    let d = step_spec(g, dir)->Some_0;
    lemma_step_spec_in_bounds(g, dir);
    lemma_apply_update_wf(g, d.new);
    let g1 = move_no_history_spec(g, dir);
    assert forall|i: int| 0 <= i < g1.queue.len() implies update_wf(
        #[trigger] g1.queue[i],
        g1.size_x,
        g1.size_y,
    ) by {
        if g.queue.len() >= REWIND_CAPACITY {
            if i < g1.queue.len() - 1 {
                assert(g1.queue[i] == g.queue[i + 1]);
            }
        } else {
            if i < g1.queue.len() - 1 {
                assert(g1.queue[i] == g.queue[i]);
            }
        }
    }
    let g2 = move_spec(g, dir);
    assert forall|i: int| 0 <= i < g2.history.len() implies is_action_char(
        #[trigger] g2.history[i],
    ) by {
        if i < g2.history.len() - 1 {
            assert(g2.history[i] == g.history[i]);
        } else {
            assert(g2.history[i] == char_of_dir(dir));
        }
    }
}

/// A reset preserves well-formedness.
pub proof fn lemma_reset_spec_wf(g: GameView)
    requires
        g.wf(),
    ensures
        reset_no_history_spec(g).wf(),
        reset_apply_spec(g).wf(),
{
    let g2 = reset_apply_spec(g);
    assert forall|i: int| 0 <= i < g2.history.len() implies is_action_char(
        #[trigger] g2.history[i],
    ) by {
        if i < g2.history.len() - 1 {
            assert(g2.history[i] == g.history[i]);
        }
    }
}

/// Replaying any string preserves well-formedness.
pub proof fn lemma_replay_spec_wf(g: GameView, s: Seq<char>)
    requires
        g.wf(),
        forall|i: int| 0 <= i < s.len() ==> is_history_char(#[trigger] s[i]),
    ensures
        replay_spec(g, s).wf(),
    decreases s.len(),
{
    if s.len() > 0 {
        assert forall|i: int| 0 <= i < s.drop_first().len() implies is_history_char(
            #[trigger] s.drop_first()[i],
        ) by {
            assert(s.drop_first()[i] == s[i + 1]);
        }
        if s[0] == '\n' {
            lemma_replay_spec_wf(g, s.drop_first());
        } else if action_enabled(g, s[0]) {
            if s[0] == 'T' {
                lemma_reset_spec_wf(g);
                assert(replay_step(g, 'T') =~= reset_apply_spec(g));
            } else {
                lemma_move_spec_wf(g, dir_of_char(s[0]));
                assert(replay_step(g, s[0]) =~= (GameView {
                    history: g.history.push(s[0]),
                    ..move_no_history_spec(g, dir_of_char(s[0]))
                }));
                let g1 = replay_step(g, s[0]);
                assert forall|i: int| 0 <= i < g1.history.len() implies is_action_char(
                    #[trigger] g1.history[i],
                ) by {
                    if i < g1.history.len() - 1 {
                        assert(g1.history[i] == g.history[i]);
                    }
                }
            }
            lemma_replay_spec_wf(replay_step(g, s[0]), s.drop_first());
        }
    }
}

/// The resolver reads only the dynamic state and the extents: two states that
/// agree there resolve every input alike.
pub proof fn lemma_step_spec_respects_dyn(a: GameView, b: GameView, dir: Direction)
    requires
        dyn_eq(a, b),
        a.size_x == b.size_x,
        a.size_y == b.size_y,
    ensures
        step_spec(a, dir) == step_spec(b, dir),
{
}

/// Reachability reads only the originals, the extents and the player: two
/// states that agree there reach the same cells.
pub proof fn lemma_reach_n_respects(a: GameView, b: GameView, c: (usize, usize), n: nat)
    requires
        a.player == b.player,
        a.size_x == b.size_x,
        a.size_y == b.size_y,
        a.orig_tiles == b.orig_tiles,
    ensures
        reach_n(a, c, n) == reach_n(b, c, n),
    decreases n,
{
    if n > 0 {
        lemma_reach_n_respects(a, b, c, (n - 1) as nat);
        assert forall|p: (usize, usize)| #[trigger] adjacent(p, c) implies reach_n(a, p, (n - 1) as nat)
            == reach_n(b, p, (n - 1) as nat) by {
            lemma_reach_n_respects(a, b, p, (n - 1) as nat);
        }
    }
}

/// Resets read only the dynamic state, the originals and the extents: two
/// states that agree there accept and perform a reset alike.
pub proof fn lemma_reset_respects_dyn(a: GameView, b: GameView)
    requires
        dyn_eq(a, b),
        a.size_x == b.size_x,
        a.size_y == b.size_y,
        a.orig_tiles == b.orig_tiles,
        a.orig_snowballs == b.orig_snowballs,
    ensures
        reset_enabled(a) == reset_enabled(b),
        dyn_eq(reset_no_history_spec(a), reset_no_history_spec(b)),
{
    assert forall|c: (usize, usize)| #[trigger] reachable(a, c) implies reachable(b, c) by {
        let n = choose|n: nat| reach_n(a, c, n);
        lemma_reach_n_respects(a, b, c, n);
    }
    assert forall|c: (usize, usize)| #[trigger] reachable(b, c) implies reachable(a, c) by {
        let n = choose|n: nat| reach_n(b, c, n);
        lemma_reach_n_respects(a, b, c, n);
    }
    if reset_enabled(a) {
        let c = choose|c: (usize, usize)| #[trigger] reachable(a, c) && cell_differs(a, c.0, c.1);
        assert(reachable(b, c) && cell_differs(b, c.0, c.1));
    }
    if reset_enabled(b) {
        let c = choose|c: (usize, usize)| #[trigger] reachable(b, c) && cell_differs(b, c.0, c.1);
        assert(reachable(a, c) && cell_differs(a, c.0, c.1));
    }
    assert(reset_grid_spec(a).tiles =~= reset_grid_spec(b).tiles);
    assert(reset_grid_spec(a).snowballs =~= reset_grid_spec(b).snowballs);
}

/// Applying one update reads only the dynamic state and the extents.
pub proof fn lemma_apply_respects_dyn(a: GameView, b: GameView, u: Update)
    requires
        dyn_eq(a, b),
        a.size_x == b.size_x,
        a.size_y == b.size_y,
    ensures
        dyn_eq(apply_update_spec(a, u), apply_update_spec(b, u)),
{
}


/// Peeling the last character off a cleanly replaying string: the prefix
/// replays cleanly, and the whole replay is the prefix's replay followed by
/// that one action.
pub proof fn lemma_clean_unsnoc(f: GameView, s: Seq<char>)
    requires
        s.len() > 0,
        replay_clean(f, s),
    ensures
        replay_clean(f, s.drop_last()),
        s.last() == '\n' ==> replay_spec(f, s) == replay_spec(f, s.drop_last()),
        s.last() != '\n' ==> action_enabled(replay_spec(f, s.drop_last()), s.last())
            && replay_spec(f, s) == replay_step(replay_spec(f, s.drop_last()), s.last()),
    decreases s.len(),
{
    if s.len() == 1 {
        assert(s.drop_last() =~= Seq::<char>::empty());
        assert(s.drop_first() =~= Seq::<char>::empty());
        assert(s[0] == s.last());
        assert(replay_clean(f, Seq::<char>::empty()));
        assert(replay_spec(f, s.drop_last()) == f);
        if s[0] == '\n' {
            assert(replay_spec(f, s) == replay_spec(f, s.drop_first()));
            assert(replay_spec(f, s.drop_first()) == f);
        } else {
            assert(action_enabled(f, s[0]));
            assert(replay_spec(f, s) == replay_spec(replay_step(f, s[0]), s.drop_first()));
            assert(replay_spec(replay_step(f, s[0]), s.drop_first()) == replay_step(f, s[0]));
        }
    } else {
        assert(s.drop_last().drop_first() =~= s.drop_first().drop_last());
        assert(s.drop_first().last() == s.last());
        assert(s.drop_last()[0] == s[0]);
        if s[0] == '\n' {
            lemma_clean_unsnoc(f, s.drop_first());
        } else {
            lemma_clean_unsnoc(replay_step(f, s[0]), s.drop_first());
        }
    }
}

/// Appending one accepted action keeps a string cleanly replaying.
pub proof fn lemma_clean_snoc(f: GameView, s: Seq<char>, c: char)
    requires
        replay_clean(f, s),
        c != '\n' ==> action_enabled(replay_spec(f, s), c),
    ensures
        replay_clean(f, s.push(c)),
        c == '\n' ==> replay_spec(f, s.push(c)) == replay_spec(f, s),
        c != '\n' ==> replay_spec(f, s.push(c)) == replay_step(replay_spec(f, s), c),
    decreases s.len(),
{
    if s.len() == 0 {
        assert(s.push(c).drop_first() =~= Seq::<char>::empty());
        assert(s.push(c)[0] == c);
        assert(replay_spec(f, s) == f);
        assert(replay_clean(f, Seq::<char>::empty()));
        if c == '\n' {
            assert(replay_clean(f, s.push(c)));
            assert(replay_spec(f, s.push(c)) == replay_spec(f, s.push(c).drop_first()));
            assert(replay_spec(f, s.push(c).drop_first()) == f);
        } else {
            assert(action_enabled(f, c));
            assert(replay_clean(replay_step(f, c), Seq::<char>::empty()));
            assert(replay_clean(f, s.push(c)));
            assert(replay_spec(f, s.push(c)) == replay_spec(
                replay_step(f, c),
                s.push(c).drop_first(),
            ));
            assert(replay_spec(replay_step(f, c), s.push(c).drop_first()) == replay_step(f, c));
        }
    } else {
        assert(s.push(c)[0] == s[0]);
        assert(s.push(c).drop_first() =~= s.drop_first().push(c));
        if s[0] == '\n' {
            lemma_clean_snoc(f, s.drop_first(), c);
        } else {
            lemma_clean_snoc(replay_step(f, s[0]), s.drop_first(), c);
        }
    }
}

/// The sequence `s` is the newest end of the sequence `t`.
pub open spec fn queue_suffix(s: Seq<Update>, t: Seq<Update>) -> bool {
    &&& s.len() <= t.len()
    &&& t.skip(t.len() - s.len()) == s
}

/// A live engine state is consistent with replaying its own action log into
/// a fresh engine over the same asset: the replay is accepted action by
/// action, reproduces the live terrain, occupants and player exactly, and
/// rebuilds an undo queue of which the live one is the newest end (older
/// live entries may have been evicted and rewound past).
pub open spec fn replay_consistent(f: GameView, g: GameView) -> bool {
    &&& f.wf()
    &&& f.history == Seq::<char>::empty()
    &&& f.queue == Seq::<Update>::empty()
    &&& f.tiles == f.orig_tiles
    &&& f.snowballs == f.orig_snowballs
    &&& g.size_x == f.size_x
    &&& g.size_y == f.size_y
    &&& g.orig_tiles == f.orig_tiles
    &&& g.orig_snowballs == f.orig_snowballs
    &&& replay_clean(f, g.history)
    &&& dyn_eq(replay_spec(f, g.history), g)
    &&& queue_suffix(g.queue, replay_spec(f, g.history).queue)
}

/// A freshly instantiated engine is consistent with its own (empty) log.
pub proof fn lemma_replay_consistent_fresh(f: GameView)
    requires
        f.wf(),
        f.history == Seq::<char>::empty(),
        f.queue == Seq::<Update>::empty(),
        f.tiles == f.orig_tiles,
        f.snowballs == f.orig_snowballs,
    ensures
        replay_consistent(f, f),
{
    assert(f.queue.skip(0) =~= f.queue);
}

/// The replay state carries the fresh engine's static data.
pub proof fn lemma_replay_statics(f: GameView, s: Seq<char>)
    requires
        replay_clean(f, s),
    ensures
        replay_spec(f, s).size_x == f.size_x,
        replay_spec(f, s).size_y == f.size_y,
        replay_spec(f, s).orig_tiles == f.orig_tiles,
        replay_spec(f, s).orig_snowballs == f.orig_snowballs,
    decreases s.len(),
{
    if s.len() > 0 {
        if s[0] == '\n' {
            lemma_replay_statics(f, s.drop_first());
        } else {
            lemma_replay_statics(replay_step(f, s[0]), s.drop_first());
        }
    }
}

/// An accepted live move preserves replay consistency.
pub proof fn lemma_consistent_move(f: GameView, g: GameView, dir: Direction)
    requires
        g.wf(),
        replay_consistent(f, g),
        move_enabled(g, dir),
    ensures
        replay_consistent(f, move_spec(g, dir)),
{
    let c = char_of_dir(dir);
    let r = replay_spec(f, g.history);
    let g1 = move_spec(g, dir);
    lemma_replay_statics(f, g.history);
    lemma_step_spec_respects_dyn(r, g, dir);
    assert(c == 'U' || c == 'L' || c == 'D' || c == 'R');
    assert(dir_of_char(c) == dir);
    assert(action_enabled(r, c));
    lemma_clean_snoc(f, g.history, c);
    assert(g1.history =~= g.history.push(c));
    let r1 = replay_step(r, c);
    let d = step_spec(g, dir)->Some_0;
    // the grids move alike
    lemma_apply_respects_dyn(r, g, d.new);
    assert(dyn_eq(r1, g1));
    // the live queue stays the newest end of the replayed queue
    let lq = g.queue;
    let rq = r.queue;
    let lq1 = g1.queue;
    let rq1 = r1.queue;
    assert(lq1 == push_bounded(lq, d.old));
    assert(rq1 == push_bounded(rq, d.old));
    assert(queue_suffix(lq1, rq1)) by {
        let drop_l: int = if lq.len() >= REWIND_CAPACITY {
            1
        } else {
            0
        };
        let drop_r: int = if rq.len() >= REWIND_CAPACITY {
            1
        } else {
            0
        };
        assert(lq1.len() == lq.len() + 1 - drop_l);
        assert(rq1.len() == rq.len() + 1 - drop_r);
        assert forall|i: int|
            0 <= i < lq1.len() implies rq1.skip(rq1.len() - lq1.len())[i] == lq1[i] by {
            if i < lq1.len() - 1 {
                assert(lq1[i] == lq[i + drop_l]);
                assert(rq1[rq1.len() - lq1.len() + i] == rq[rq.len() - lq.len() + i + drop_l]);
                assert(rq.skip(rq.len() - lq.len())[i + drop_l] == lq[i + drop_l]);
            } else {
                assert(lq1[i] == d.old);
                assert(rq1[rq1.len() - 1] == d.old);
            }
        }
        assert(rq1.skip(rq1.len() - lq1.len()) =~= lq1);
    }
}

/// An accepted live reset preserves replay consistency.
pub proof fn lemma_consistent_reset(f: GameView, g: GameView)
    requires
        g.wf(),
        replay_consistent(f, g),
        reset_enabled(g),
    ensures
        replay_consistent(f, reset_apply_spec(g)),
{
    let r = replay_spec(f, g.history);
    let g1 = reset_apply_spec(g);
    lemma_replay_statics(f, g.history);
    lemma_reset_respects_dyn(r, g);
    assert(action_enabled(r, 'T'));
    lemma_clean_snoc(f, g.history, 'T');
    assert(g1.history =~= g.history.push('T'));
    let r1 = replay_step(r, 'T');
    assert(dyn_eq(r1, g1));
    assert(r1.queue =~= Seq::<Update>::empty());
    assert(r1.queue.skip(0) =~= r1.queue);
}


/// An accepted live rewind preserves replay consistency: the undone move's
/// inverse update returns the grid exactly to the replay of the shortened
/// log, by the round-trip law.
pub proof fn lemma_consistent_rewind(f: GameView, g: GameView)
    requires
        g.wf(),
        replay_consistent(f, g),
        crate::game::rewind_enabled(g),
    ensures
        replay_consistent(f, crate::game::rewind_spec(g)),
{
    let h = g.history;
    let r = replay_spec(f, h);
    assert(r.queue.len() >= g.queue.len());
    if h.len() == 0 {
        assert(replay_spec(f, h) == f);
        assert(false);
    }
    let c = h.last();
    assert(is_action_char(h[h.len() - 1]));
    lemma_clean_unsnoc(f, h);
    let h1 = h.drop_last();
    let r1 = replay_spec(f, h1);
    assert(c != '\n');
    assert(action_enabled(r1, c));
    assert(r == replay_step(r1, c));
    lemma_replay_statics(f, h);
    lemma_replay_statics(f, h1);
    assert forall|i: int| 0 <= i < h1.len() implies is_history_char(#[trigger] h1[i]) by {
        assert(h1[i] == h[i]);
        assert(is_action_char(h[i]));
    }
    lemma_replay_spec_wf(f, h1);
    if c == 'T' {
        assert(r.queue =~= Seq::<Update>::empty());
        assert(g.queue.len() == 0);
        assert(false);
    }
    let dir = dir_of_char(c);
    let d = step_spec(r1, dir)->Some_0;
    let m = move_no_history_spec(r1, dir);
    assert(r.queue == push_bounded(r1.queue, d.old));
    assert(dyn_eq(r, apply_update_spec(r1, d.new)));
    let g1 = crate::game::rewind_spec(g);
    // the newest live entry is the replayed move's inverse
    assert(g.queue[g.queue.len() - 1] == r.queue.skip(r.queue.len() - g.queue.len())[g.queue.len()
        - 1]);
    assert(g.queue.last() == r.queue[r.queue.len() - 1]);
    assert(r.queue[r.queue.len() - 1] == d.old);
    // applying it returns both grids to the shortened replay's state
    lemma_diff_round_trip(r1, dir);
    lemma_apply_respects_dyn(g, r, d.old);
    lemma_apply_respects_dyn(r, apply_update_spec(r1, d.new), d.old);
    assert(dyn_eq(g1, r1));
    // the shortened live queue is the newest end of the shortened replay's
    assert(g1.queue == g.queue.drop_last());
    assert(g1.history =~= h1);
    assert(queue_suffix(g1.queue, r1.queue)) by {
        let lq = g.queue;
        let rq = r1.queue;
        let drop_r: int = if rq.len() >= REWIND_CAPACITY {
            1
        } else {
            0
        };
        assert(r.queue.len() == rq.len() + 1 - drop_r);
        assert forall|k: int|
            0 <= k < lq.len() - 1 implies rq.skip(rq.len() - (lq.len() - 1))[k]
                == lq.drop_last()[k] by {
            assert(lq[k] == r.queue[r.queue.len() - lq.len() + k]);
            assert(r.queue[r.queue.len() - lq.len() + k] == rq[r.queue.len() - lq.len() + k
                + drop_r]);
            assert(rq.len() - (lq.len() - 1) + k == r.queue.len() - lq.len() + k + drop_r);
        }
        assert(rq.skip(rq.len() - (lq.len() - 1)) =~= lq.drop_last());
    }
}

/// Replay-reproduction law: a consistent engine's recorded log, replayed
/// into a fresh engine over the same unmodified asset, reproduces the
/// engine's terrain, occupants and player position exactly.  Consistency
/// holds of a fresh engine and is preserved by every accepted move, reset and
/// rewind, by the three lemmas above.
pub proof fn lemma_saved_history_replays(f: GameView, g: GameView)
    requires
        replay_consistent(f, g),
    ensures
        dyn_eq(replay_spec(f, g.history), g),
        replay_spec(f, g.history).tiles == g.tiles,
        replay_spec(f, g.history).snowballs == g.snowballs,
        replay_spec(f, g.history).player == g.player,
{
}


/// Replaying a loaded history string also preserves replay consistency: each
/// accepted replayed action is, state for state, the live operation it
/// records.  With the move, reset and rewind lemmas above, every operation
/// that mutates an engine keeps it consistent with its own log.
pub proof fn lemma_consistent_replay(f: GameView, g: GameView, s: Seq<char>)
    requires
        g.wf(),
        replay_consistent(f, g),
        forall|i: int| 0 <= i < s.len() ==> is_history_char(#[trigger] s[i]),
    ensures
        replay_consistent(f, replay_spec(g, s)),
        replay_spec(g, s).wf(),
    decreases s.len(),
{
    if s.len() > 0 {
        assert(is_history_char(s[0]));
        assert forall|i: int| 0 <= i < s.drop_first().len() implies is_history_char(
            #[trigger] s.drop_first()[i],
        ) by {
            assert(s.drop_first()[i] == s[i + 1]);
        }
        if s[0] == '\n' {
            lemma_consistent_replay(f, g, s.drop_first());
        } else if action_enabled(g, s[0]) {
            if s[0] == 'T' {
                lemma_consistent_reset(f, g);
                lemma_reset_spec_wf(g);
                assert(replay_step(g, 'T') =~= reset_apply_spec(g));
            } else {
                let dir = dir_of_char(s[0]);
                assert(char_of_dir(dir) == s[0]);
                lemma_consistent_move(f, g, dir);
                lemma_move_spec_wf(g, dir);
                assert(replay_step(g, s[0]) =~= move_spec(g, dir));
            }
            lemma_consistent_replay(f, replay_step(g, s[0]), s.drop_first());
        }
    }
}

} // verus!
