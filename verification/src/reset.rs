//! The level reset explorer: a worklist flood fill that restores the player's
//! connected sub-level — the cells reachable from the player over originally
//! Dirt/Snow terrain — to its originally parsed configuration, leaving every
//! disconnected sub-level untouched.

use vstd::prelude::*;

use crate::base::{spec_try_step, try_step, Direction, OneTileUpdate, SnowBall, Tile};
use crate::game::{
    cell_index, lemma_cell_index_injective, lemma_cell_index_props, Game, GameView,
};
use vstd::arithmetic::div_mod::{lemma_fundamental_div_mod, lemma_mod_bound};
use vstd::arithmetic::mul::lemma_mul_is_commutative;

verus! {

broadcast use crate::game::lemma_game_view;

/// A cell that belongs to a level: in bounds, with `Dirt` or `Snow` as its
/// originally parsed terrain.
pub open spec fn is_level_cell(g: GameView, x: usize, y: usize) -> bool {
    &&& x < g.size_x
    &&& y < g.size_y
    &&& (g.orig_tiles[cell_index(g.size_y, x, y)] == Tile::Dirt || g.orig_tiles[cell_index(
        g.size_y,
        x,
        y,
    )] == Tile::Snow)
}

/// 4-connected adjacency of two cells.
pub open spec fn adjacent(a: (usize, usize), b: (usize, usize)) -> bool {
    ||| (a.0 == b.0 && (a.1 + 1 == b.1 || b.1 + 1 == a.1))
    ||| (a.1 == b.1 && (a.0 + 1 == b.0 || b.0 + 1 == a.0))
}

/// The cell `c` can be reached from the player's cell in at most `n`
/// 4-connected steps over level cells.
pub open spec fn reach_n(g: GameView, c: (usize, usize), n: nat) -> bool
    decreases n,
{
    if n == 0 {
        c == g.player && is_level_cell(g, c.0, c.1)
    } else {
        reach_n(g, c, (n - 1) as nat) || (is_level_cell(g, c.0, c.1) && exists|p: (usize, usize)|
            adjacent(p, c) && reach_n(g, p, (n - 1) as nat))
    }
}

/// The cell `c` lies in the player's connected sub-level.
pub open spec fn reachable(g: GameView, c: (usize, usize)) -> bool {
    exists|n: nat| reach_n(g, c, n)
}

/// The current contents of cell `(x, y)` differ from the originally parsed
/// ones.
pub open spec fn cell_differs(g: GameView, x: usize, y: usize) -> bool {
    let i = cell_index(g.size_y, x, y);
    g.tiles[i] != g.orig_tiles[i] || g.snowballs[i] != g.orig_snowballs[i]
}

/// A reset is accepted exactly when some cell of the player's connected
/// sub-level differs from its originally parsed contents.
pub open spec fn reset_enabled(g: GameView) -> bool {
    exists|c: (usize, usize)| #[trigger] reachable(g, c) && cell_differs(g, c.0, c.1)
}

/// Whether the flat index `i` denotes a cell of the player's connected
/// sub-level.
pub open spec fn reachable_idx(g: GameView, i: int) -> bool {
    reachable(g, (((i / (g.size_y as int)) as usize), ((i % (g.size_y as int)) as usize)))
}

/// The grid after a reset: every cell of the player's connected sub-level is
/// restored to its originally parsed contents, every other cell is
/// bit-identical to before; the player does not move.
pub open spec fn reset_grid_spec(g: GameView) -> GameView {
    GameView {
        tiles: Seq::new(
            g.tiles.len(),
            |i: int|
                if reachable_idx(g, i) {
                    g.orig_tiles[i]
                } else {
                    g.tiles[i]
                },
        ),
        snowballs: Seq::new(
            g.snowballs.len(),
            |i: int|
                if reachable_idx(g, i) {
                    g.orig_snowballs[i]
                } else {
                    g.snowballs[i]
                },
        ),
        ..g
    }
}

/// The state after an accepted reset, before the action log is extended: the
/// grid is restored and the undo queue is cleared, since its entries refer to
/// cell states that the reset has just overwritten.
pub open spec fn reset_no_history_spec(g: GameView) -> GameView {
    GameView { queue: Seq::<crate::base::Update>::empty(), ..reset_grid_spec(g) }
}

/// The state after an accepted reset: as `reset_no_history_spec`, with the
/// reset marker appended to the action log.
pub open spec fn reset_apply_spec(g: GameView) -> GameView {
    GameView { history: g.history.push('T'), ..reset_no_history_spec(g) }
}

/// A per-cell delta that restores one differing cell to its originally
/// parsed contents, touching exactly the attributes that differ.
pub open spec fn restores_cell(g: GameView, u: OneTileUpdate) -> bool {
    let i = cell_index(g.size_y, u.x, u.y);
    &&& u.x < g.size_x
    &&& u.y < g.size_y
    &&& cell_differs(g, u.x, u.y)
    &&& u.new_tile == (if g.tiles[i] != g.orig_tiles[i] {
        Some(g.orig_tiles[i])
    } else {
        None::<Tile>
    })
    &&& u.new_snowball == (if g.snowballs[i] != g.orig_snowballs[i] {
        Some(g.orig_snowballs[i])
    } else {
        None::<Option<SnowBall>>
    })
}

/// Reachability within a step bound is monotone in the bound.
pub proof fn lemma_reach_n_mono(g: GameView, c: (usize, usize), n: nat, m: nat)
    requires
        reach_n(g, c, n),
        n <= m,
    ensures
        reach_n(g, c, m),
    decreases m,
{
    if m > n {
        lemma_reach_n_mono(g, c, n, (m - 1) as nat);
    }
}

/// Every reachable cell is a level cell, in particular in bounds.
pub proof fn lemma_reach_n_level(g: GameView, c: (usize, usize), n: nat)
    requires
        reach_n(g, c, n),
    ensures
        is_level_cell(g, c.0, c.1),
    decreases n,
{
    if n > 0 && reach_n(g, c, (n - 1) as nat) {
        lemma_reach_n_level(g, c, (n - 1) as nat);
    }
}

/// When the player's own cell is not a level cell, the connected sub-level is
/// empty: nothing is reachable.
pub proof fn lemma_no_reach_without_level_root(g: GameView, c: (usize, usize), n: nat)
    requires
        !is_level_cell(g, g.player.0, g.player.1),
    ensures
        !reach_n(g, c, n),
    decreases n,
{
    if n > 0 {
        lemma_no_reach_without_level_root(g, c, (n - 1) as nat);
        assert forall|p: (usize, usize)| adjacent(p, c) implies !reach_n(
            g,
            p,
            (n - 1) as nat,
        ) by {
            lemma_no_reach_without_level_root(g, p, (n - 1) as nat);
        }
    }
}

/// A visited set that contains the player's cell and is closed under
/// stepping to adjacent level cells: every neighbor of a visited cell that is
/// a level cell is visited, except neighbors of cells still on the worklist.
pub open spec fn frontier_closed(g: GameView, visited: Seq<bool>, stack: Seq<(usize, usize)>) -> bool {
    forall|c: (usize, usize), d: (usize, usize)|
        #![trigger adjacent(c, d)]
        c.0 < g.size_x && c.1 < g.size_y && visited[cell_index(g.size_y, c.0, c.1)]
            && !stack.contains(c) && adjacent(c, d) && is_level_cell(g, d.0, d.1) ==> visited[
            cell_index(g.size_y, d.0, d.1)
        ]
}

/// Once the worklist is empty, a closed visited set that holds the player's
/// cell covers every reachable cell.
pub proof fn lemma_closed_covers_reachable(
    g: GameView,
    visited: Seq<bool>,
    stack: Seq<(usize, usize)>,
    c: (usize, usize),
    n: nat,
)
    requires
        g.wf(),
        stack.len() == 0,
        frontier_closed(g, visited, stack),
        is_level_cell(g, g.player.0, g.player.1) ==> visited[cell_index(
            g.size_y,
            g.player.0,
            g.player.1,
        )],
        reach_n(g, c, n),
    ensures
        visited[cell_index(g.size_y, c.0, c.1)],
    decreases n,
{
    if n == 0 {
    } else if reach_n(g, c, (n - 1) as nat) {
        lemma_closed_covers_reachable(g, visited, stack, c, (n - 1) as nat);
    } else {
        let p = choose|p: (usize, usize)| adjacent(p, c) && reach_n(g, p, (n - 1) as nat);
        lemma_closed_covers_reachable(g, visited, stack, p, (n - 1) as nat);
        lemma_reach_n_level(g, p, (n - 1) as nat);
        assert(!stack.contains(p));
    }
}

/// How many entries of a visited set are still unvisited.
pub open spec fn count_falses(s: Seq<bool>) -> nat
    decreases s.len(),
{
    if s.len() == 0 {
        0
    } else {
        count_falses(s.drop_last()) + if s.last() {
            0nat
        } else {
            1nat
        }
    }
}

/// Marking one unvisited entry lowers the count of unvisited entries by one.
pub proof fn lemma_count_falses_set_true(s: Seq<bool>, i: int)
    requires
        0 <= i < s.len(),
        !s[i],
    ensures
        count_falses(s.update(i, true)) == count_falses(s) - 1,
    decreases s.len(),
{
    if i == s.len() - 1 {
        assert(s.update(i, true).drop_last() =~= s.drop_last());
    } else {
        assert(s.update(i, true).drop_last() =~= s.drop_last().update(i, true));
        lemma_count_falses_set_true(s.drop_last(), i);
    }
}

/// Pushing onto a sequence adds exactly one possible member.
pub proof fn lemma_contains_push<A>(s: Seq<A>, v: A, c: A)
    ensures
        s.push(v).contains(c) <==> s.contains(c) || c == v,
{
    if s.contains(c) {
        let j = choose|j: int| 0 <= j < s.len() && s[j] == c;
        assert(s.push(v)[j] == c);
    }
    assert(s.push(v)[s.len() as int] == v);
    if s.push(v).contains(c) && c != v {
        let j = choose|j: int| 0 <= j < s.push(v).len() && s.push(v)[j] == c;
        assert(0 <= j < s.len());
        assert(s[j] == c);
    }
}

/// Dropping the last element removes at most that one member.
pub proof fn lemma_contains_drop_last<A>(s: Seq<A>, c: A)
    requires
        s.len() > 0,
    ensures
        s.contains(c) <==> s.drop_last().contains(c) || c == s.last(),
{
    if s.drop_last().contains(c) {
        let j = choose|j: int| 0 <= j < s.drop_last().len() && s.drop_last()[j] == c;
        assert(s[j] == c);
    }
    assert(s[s.len() - 1] == s.last());
    if s.contains(c) && c != s.last() {
        let j = choose|j: int| 0 <= j < s.len() && s[j] == c;
        assert(s.drop_last()[j] == c);
    }
}

impl Game {
    /// Whether the originally parsed terrain of `(x, y)` belongs to a level.
    fn is_level_char(&self, x: usize, y: usize) -> (r: bool)
        requires
            self@.wf(),
            x < self@.size_x,
            y < self@.size_y,
        ensures
            r == is_level_cell(self@, x, y),
    {
        let i = self.cell_idx(x, y);
        let t = self.orig_tiles[i];
        t == Tile::Dirt || t == Tile::Snow
    }

    /// The delta that would restore cell `(x, y)` to its originally parsed
    /// contents, or `None` when the cell does not differ.
    fn try_generate_update_at(&self, x: usize, y: usize) -> (r: Option<OneTileUpdate>)
        requires
            self@.wf(),
            x < self@.size_x,
            y < self@.size_y,
        ensures
            r is Some <==> cell_differs(self@, x, y),
            r matches Some(u) ==> u.x == x && u.y == y && restores_cell(self@, u),
    {
        let i = self.cell_idx(x, y);
        let tile = self.orig_tiles[i];
        let snowball = self.orig_snowballs[i];
        let new_tile = if self.tiles[i] != tile {
            Some(tile)
        } else {
            None
        };
        let new_snowball = if self.snowballs[i] != snowball {
            Some(snowball)
        } else {
            None
        };
        if new_tile.is_none() && new_snowball.is_none() {
            None
        } else {
            Some(OneTileUpdate { x, y, new_tile, new_snowball })
        }
    }

    /// Gather, by a worklist traversal with a visited set, one restoring
    /// delta for every cell of the player's connected sub-level whose current
    /// contents differ from the originally parsed ones.  The deltas cover
    /// exactly the reachable differing cells, one delta per cell.
    pub fn current_level_diff(&self) -> (r: Vec<OneTileUpdate>)
        requires
            self@.wf(),
        ensures
            forall|k: int|
                0 <= k < r@.len() ==> restores_cell(self@, #[trigger] r@[k]) && reachable(
                    self@,
                    (r@[k].x, r@[k].y),
                ),
            forall|k1: int, k2: int|
                0 <= k1 < k2 < r@.len() ==> !((#[trigger] r@[k1]).x == (#[trigger] r@[k2]).x
                    && r@[k1].y == r@[k2].y),
            forall|x: usize, y: usize|
                #![trigger reachable(self@, (x, y))]
                x < self@.size_x && y < self@.size_y && reachable(self@, (x, y)) && cell_differs(
                    self@,
                    x,
                    y,
                ) ==> exists|k: int| 0 <= k < r@.len() && r@[k].x == x && r@[k].y == y,
    {
        let ghost g = self@;
        let mut updates: Vec<OneTileUpdate> = Vec::new();
        let (root_x, root_y) = self.player;
        if !self.is_level_char(root_x, root_y) {
            proof {
                assert forall|x: usize, y: usize|
                    x < g.size_x && y < g.size_y && #[trigger] reachable(g, (x, y))
                        && cell_differs(g, x, y) implies exists|k: int|
                    0 <= k < updates@.len() && updates@[k].x == x && updates@[k].y == y by {
                    let n = choose|n: nat| reach_n(g, (x, y), n);
                    lemma_no_reach_without_level_root(g, (x, y), n);
                }
            }
            return updates;
        }
        let total = self.tiles.len();
        let mut visited: Vec<bool> = Vec::new();
        let mut filled: usize = 0;
        while filled < total
            invariant
                visited@.len() == filled,
                filled <= total,
                forall|j: int| 0 <= j < filled ==> !(#[trigger] visited@[j]),
            decreases total - filled,
        {
            visited.push(false);
            filled = filled + 1;
        }
        let root_i = self.cell_idx(root_x, root_y);
        proof {
            lemma_count_falses_set_true(visited@, root_i as int);
        }
        let ghost blank = visited@;
        visited.set(root_i, true);
        let mut to_explore: Vec<(usize, usize)> = Vec::new();
        to_explore.push((root_x, root_y));
        proof {
            assert(reach_n(g, (root_x, root_y), 0));
            assert(to_explore@[0] == (root_x, root_y));
            assert(to_explore@.contains((root_x, root_y)));
            assert forall|x: usize, y: usize|
                x < g.size_x && y < g.size_y && #[trigger] visited@[cell_index(g.size_y, x, y)]
                implies reachable(g, (x, y)) by {
                lemma_cell_index_props(g.size_x, g.size_y, x, y);
                if cell_index(g.size_y, x, y) == root_i as int {
                    lemma_cell_index_injective(g.size_x, g.size_y, x, y, root_x, root_y);
                    assert(reach_n(g, (x, y), 0));
                } else {
                    assert(!blank[cell_index(g.size_y, x, y)]);
                    assert(false);
                }
            }
            assert forall|c1: (usize, usize), d: (usize, usize)|
                c1.0 < g.size_x && c1.1 < g.size_y && visited@[cell_index(g.size_y, c1.0, c1.1)]
                    && !to_explore@.contains(c1) && #[trigger] adjacent(c1, d) && is_level_cell(
                    g,
                    d.0,
                    d.1,
                ) implies visited@[cell_index(g.size_y, d.0, d.1)] by {
                lemma_cell_index_props(g.size_x, g.size_y, c1.0, c1.1);
                if cell_index(g.size_y, c1.0, c1.1) == root_i as int {
                    lemma_cell_index_injective(g.size_x, g.size_y, c1.0, c1.1, root_x, root_y);
                } else {
                    assert(!blank[cell_index(g.size_y, c1.0, c1.1)]);
                }
                assert(false);
            }
            assert forall|x: usize, y: usize|
                #![trigger cell_differs(g, x, y)]
                x < g.size_x && y < g.size_y && visited@[cell_index(g.size_y, x, y)]
                    && !to_explore@.contains((x, y)) && cell_differs(g, x, y) implies exists|
                k: int,
            |
                0 <= k < updates@.len() && updates@[k].x == x && updates@[k].y == y by {
                lemma_cell_index_props(g.size_x, g.size_y, x, y);
                if cell_index(g.size_y, x, y) == root_i as int {
                    lemma_cell_index_injective(g.size_x, g.size_y, x, y, root_x, root_y);
                    assert(to_explore@.contains((x, y)));
                } else {
                    assert(!blank[cell_index(g.size_y, x, y)]);
                }
                assert(false);
            }
        }
        while to_explore.len() > 0
            invariant
                self@ == g,
                g.wf(),
                visited@.len() == g.tiles.len(),
                forall|j: int|
                    0 <= j < to_explore@.len() ==> (#[trigger] to_explore@[j]).0 < g.size_x
                        && to_explore@[j].1 < g.size_y && visited@[cell_index(
                        g.size_y,
                        to_explore@[j].0,
                        to_explore@[j].1,
                    )],
                forall|j1: int, j2: int|
                    0 <= j1 < j2 < to_explore@.len() ==> #[trigger] to_explore@[j1]
                        != #[trigger] to_explore@[j2],
                forall|x: usize, y: usize|
                    x < g.size_x && y < g.size_y && #[trigger] visited@[cell_index(g.size_y, x, y)]
                        ==> reachable(g, (x, y)),
                visited@[cell_index(g.size_y, g.player.0, g.player.1)],
                frontier_closed(g, visited@, to_explore@),
                forall|k: int|
                    0 <= k < updates@.len() ==> restores_cell(g, #[trigger] updates@[k])
                        && visited@[cell_index(g.size_y, updates@[k].x, updates@[k].y)]
                        && !to_explore@.contains((updates@[k].x, updates@[k].y)),
                forall|k1: int, k2: int|
                    0 <= k1 < k2 < updates@.len() ==> !((#[trigger] updates@[k1]).x
                        == (#[trigger] updates@[k2]).x && updates@[k1].y == updates@[k2].y),
                forall|x: usize, y: usize|
                    #![trigger cell_differs(g, x, y)]
                    x < g.size_x && y < g.size_y && visited@[cell_index(g.size_y, x, y)]
                        && !to_explore@.contains((x, y)) && cell_differs(g, x, y) ==> exists|k: int|
                        0 <= k < updates@.len() && updates@[k].x == x && updates@[k].y == y,
            decreases count_falses(visited@) + to_explore@.len(),
        {
            let ghost stack0 = to_explore@;
            let ghost visited0 = visited@;
            let ghost updates0 = updates@;
            let c = to_explore.pop().unwrap();
            let (x, y) = c;
            proof {
                assert(stack0[stack0.len() - 1] == c);
                lemma_cell_index_props(g.size_x, g.size_y, x, y);
                assert(to_explore@ =~= stack0.drop_last());
                assert(to_explore@.push(c) =~= stack0);
                assert(stack0.contains(c));
                assert forall|c2: (usize, usize)| #[trigger] to_explore@.contains(c2)
                    implies stack0.contains(c2) by {
                    lemma_contains_drop_last(stack0, c2);
                }
                assert forall|c2: (usize, usize)|
                    stack0.contains(c2) && c2 != c implies #[trigger] to_explore@.contains(c2) by {
                    lemma_contains_drop_last(stack0, c2);
                }
                assert(!to_explore@.contains(c)) by {
                    if to_explore@.contains(c) {
                        let j = choose|j: int| 0 <= j < to_explore@.len() && to_explore@[j] == c;
                        assert(stack0[j] == c);
                        assert(stack0[stack0.len() - 1] == c);
                    }
                }
            }
            if let Some(u) = self.try_generate_update_at(x, y) {
                proof {
                    assert forall|k2: int| 0 <= k2 < updates@.len() implies !((
                    #[trigger] updates@[k2]).x == x && updates@[k2].y == y) by {
                        assert(!stack0.contains((updates@[k2].x, updates@[k2].y)));
                    }
                }
                updates.push(u);
            }
            let neighbors = self.valid_neighbours(x, y);
            let mut k: usize = 0;
            while k < neighbors.len()
                invariant
                    self@ == g,
                    g.wf(),
                    k <= neighbors@.len(),
                    visited@.len() == g.tiles.len(),
                    visited0.len() == visited@.len(),
                    x < g.size_x,
                    y < g.size_y,
                    stack0.len() > 0,
                    stack0[stack0.len() - 1] == (x, y),
                    forall|j: int|
                        0 <= j < neighbors@.len() ==> adjacent((x, y), #[trigger] neighbors@[j])
                            && is_level_cell(g, neighbors@[j].0, neighbors@[j].1),
                    visited@[cell_index(g.size_y, x, y)],
                    count_falses(visited@) + to_explore@.len() == count_falses(visited0)
                        + stack0.len() - 1,
                    forall|i: int|
                        0 <= i < visited0.len() && visited0[i] ==> #[trigger] visited@[i],
                    forall|j: int|
                        0 <= j < to_explore@.len() ==> (#[trigger] to_explore@[j]).0 < g.size_x
                            && to_explore@[j].1 < g.size_y && visited@[cell_index(
                            g.size_y,
                            to_explore@[j].0,
                            to_explore@[j].1,
                        )],
                    forall|j1: int, j2: int|
                        0 <= j1 < j2 < to_explore@.len() ==> #[trigger] to_explore@[j1]
                            != #[trigger] to_explore@[j2],
                    forall|px: usize, py: usize|
                        px < g.size_x && py < g.size_y && #[trigger] visited@[cell_index(
                            g.size_y,
                            px,
                            py,
                        )] ==> reachable(g, (px, py)),
                    visited@[cell_index(g.size_y, g.player.0, g.player.1)],
                    !to_explore@.contains((x, y)),
                    forall|c2: (usize, usize)|
                        #[trigger] to_explore@.contains(c2) ==> stack0.contains(c2) || !visited0[
                            cell_index(g.size_y, c2.0, c2.1)
                        ],
                    forall|c2: (usize, usize)|
                        stack0.contains(c2) && c2 != (x, y) ==> #[trigger] to_explore@.contains(
                            c2,
                        ),
                    forall|c2: (usize, usize)|
                        c2.0 < g.size_x && c2.1 < g.size_y && visited@[cell_index(
                            g.size_y,
                            c2.0,
                            c2.1,
                        )] && !visited0[cell_index(g.size_y, c2.0, c2.1)]
                            ==> #[trigger] to_explore@.contains(c2),
                    forall|j: int|
                        0 <= j < k ==> visited@[cell_index(
                            g.size_y,
                            (#[trigger] neighbors@[j]).0,
                            neighbors@[j].1,
                        )],
                    frontier_closed(g, visited@, to_explore@.push((x, y))),
                    forall|k2: int|
                        0 <= k2 < updates0.len() ==> #[trigger] updates@[k2] == updates0[k2],
                    cell_differs(g, x, y) ==> updates@.len() == updates0.len() + 1 && updates@[
                        updates0.len() as int
                    ].x == x && updates@[updates0.len() as int].y == y && restores_cell(
                        g,
                        updates@[updates0.len() as int],
                    ),
                    !cell_differs(g, x, y) ==> updates@ == updates0,
                decreases neighbors@.len() - k,
            {
                let nc = neighbors[k];
                let (nx, ny) = nc;
                proof {
                    assert(adjacent((x, y), neighbors@[k as int]));
                }
                let ni = self.cell_idx(nx, ny);
                if !visited[ni] {
                    let ghost visb = visited@;
                    let ghost stb = to_explore@;
                    proof {
                        lemma_count_falses_set_true(visited@, ni as int);
                        lemma_cell_index_props(g.size_x, g.size_y, x, y);
                        let n0 = choose|n: nat| reach_n(g, (x, y), n);
                        assert(reach_n(g, (nx, ny), n0 + 1));
                    }
                    visited.set(ni, true);
                    to_explore.push(nc);
                    proof {
                        assert(to_explore@[to_explore@.len() - 1] == nc);
                        assert(to_explore@.contains(nc));
                        lemma_cell_index_props(g.size_x, g.size_y, x, y);
                        lemma_cell_index_props(g.size_x, g.size_y, g.player.0, g.player.1);
                        assert forall|j: int|
                            0 <= j < to_explore@.len() implies (#[trigger] to_explore@[j]).0
                                < g.size_x && to_explore@[j].1 < g.size_y && visited@[cell_index(
                                g.size_y,
                                to_explore@[j].0,
                                to_explore@[j].1,
                            )] by {
                            if j < stb.len() {
                                assert(to_explore@[j] == stb[j]);
                                lemma_cell_index_props(g.size_x, g.size_y, stb[j].0, stb[j].1);
                            }
                        }
                        assert forall|j1: int, j2: int|
                            0 <= j1 < j2 < to_explore@.len() implies #[trigger] to_explore@[j1]
                                != #[trigger] to_explore@[j2] by {
                            if j2 == to_explore@.len() - 1 {
                                let e = stb[j1];
                                lemma_cell_index_props(g.size_x, g.size_y, e.0, e.1);
                                if e == nc {
                                    assert(visb[cell_index(g.size_y, e.0, e.1)]);
                                }
                            }
                        }
                        assert forall|px: usize, py: usize|
                            px < g.size_x && py < g.size_y && #[trigger] visited@[cell_index(
                                g.size_y,
                                px,
                                py,
                            )] implies reachable(g, (px, py)) by {
                            lemma_cell_index_props(g.size_x, g.size_y, px, py);
                            if cell_index(g.size_y, px, py) == ni as int {
                                lemma_cell_index_injective(g.size_x, g.size_y, px, py, nx, ny);
                            }
                        }
                        assert(nc != (x, y));
                        assert(!to_explore@.contains((x, y))) by {
                            lemma_contains_push(stb, nc, (x, y));
                        }
                        assert forall|c2: (usize, usize)|
                            #[trigger] to_explore@.contains(c2) implies stack0.contains(c2)
                                || !visited0[cell_index(g.size_y, c2.0, c2.1)] by {
                            lemma_contains_push(stb, nc, c2);
                            if c2 == nc {
                                lemma_cell_index_props(g.size_x, g.size_y, c2.0, c2.1);
                            }
                        }
                        assert forall|c2: (usize, usize)|
                            stack0.contains(c2) && c2 != (x, y) implies #[trigger] to_explore@
                                .contains(c2) by {
                            lemma_contains_push(stb, nc, c2);
                        }
                        assert forall|c2: (usize, usize)|
                            c2.0 < g.size_x && c2.1 < g.size_y && visited@[cell_index(
                                g.size_y,
                                c2.0,
                                c2.1,
                            )] && !visited0[cell_index(g.size_y, c2.0, c2.1)]
                                implies #[trigger] to_explore@.contains(c2) by {
                            lemma_cell_index_props(g.size_x, g.size_y, c2.0, c2.1);
                            lemma_contains_push(stb, nc, c2);
                            if cell_index(g.size_y, c2.0, c2.1) == ni as int {
                                lemma_cell_index_injective(g.size_x, g.size_y, c2.0, c2.1, nx, ny);
                            }
                        }
                        assert forall|c1: (usize, usize), d: (usize, usize)|
                            c1.0 < g.size_x && c1.1 < g.size_y && visited@[cell_index(
                                g.size_y,
                                c1.0,
                                c1.1,
                            )] && !to_explore@.push((x, y)).contains(c1) && #[trigger] adjacent(
                                c1,
                                d,
                            ) && is_level_cell(g, d.0, d.1) implies visited@[cell_index(
                                g.size_y,
                                d.0,
                                d.1,
                            )] by {
                            lemma_cell_index_props(g.size_x, g.size_y, c1.0, c1.1);
                            lemma_cell_index_props(g.size_x, g.size_y, d.0, d.1);
                            lemma_contains_push(to_explore@, (x, y), c1);
                            lemma_contains_push(stb, nc, c1);
                            lemma_contains_push(stb, (x, y), c1);
                            if cell_index(g.size_y, c1.0, c1.1) == ni as int {
                                lemma_cell_index_injective(g.size_x, g.size_y, c1.0, c1.1, nx, ny);
                                assert(false);
                            } else {
                                assert(visb[cell_index(g.size_y, c1.0, c1.1)]);
                                assert(!stb.push((x, y)).contains(c1));
                                assert(visb[cell_index(g.size_y, d.0, d.1)]);
                            }
                        }
                    }
                }
                proof {
                    assert forall|j: int| 0 <= j <= k implies visited@[cell_index(
                        g.size_y,
                        (#[trigger] neighbors@[j]).0,
                        neighbors@[j].1,
                    )] by {
                        lemma_cell_index_props(
                            g.size_x,
                            g.size_y,
                            neighbors@[j].0,
                            neighbors@[j].1,
                        );
                    }
                }
                k = k + 1;
            }
            proof {
                assert forall|d: (usize, usize)|
                    #[trigger] adjacent((x, y), d) && is_level_cell(g, d.0, d.1)
                    implies visited@[cell_index(g.size_y, d.0, d.1)] by {
                    assert(neighbors@.contains(d));
                    let j = choose|j: int| 0 <= j < neighbors@.len() && neighbors@[j] == d;
                    assert(visited@[cell_index(g.size_y, neighbors@[j].0, neighbors@[j].1)]);
                }
                assert forall|c1: (usize, usize), d: (usize, usize)|
                    c1.0 < g.size_x && c1.1 < g.size_y && visited@[cell_index(
                        g.size_y,
                        c1.0,
                        c1.1,
                    )] && !to_explore@.contains(c1) && #[trigger] adjacent(c1, d) && is_level_cell(
                        g,
                        d.0,
                        d.1,
                    ) implies visited@[cell_index(g.size_y, d.0, d.1)] by {
                    if c1 != (x, y) {
                        lemma_contains_push(to_explore@, (x, y), c1);
                    }
                }
                assert forall|k2: int| 0 <= k2 < updates@.len() implies restores_cell(
                    g,
                    #[trigger] updates@[k2],
                ) && visited@[cell_index(g.size_y, updates@[k2].x, updates@[k2].y)]
                    && !to_explore@.contains((updates@[k2].x, updates@[k2].y)) by {
                    let cx = updates@[k2].x;
                    let cy = updates@[k2].y;
                    lemma_cell_index_props(g.size_x, g.size_y, x, y);
                    if k2 < updates0.len() {
                        assert(updates@[k2] == updates0[k2]);
                        lemma_cell_index_props(g.size_x, g.size_y, cx, cy);
                        assert(visited0[cell_index(g.size_y, cx, cy)]);
                        assert(!stack0.contains((cx, cy)));
                        if to_explore@.contains((cx, cy)) {
                            assert(stack0.contains((cx, cy)) || !visited0[cell_index(
                                g.size_y,
                                cx,
                                cy,
                            )]);
                        }
                    } else {
                        assert(cell_differs(g, x, y));
                        assert(k2 == updates0.len());
                        assert(cx == x && cy == y);
                    }
                }
                assert forall|k1: int, k2: int|
                    0 <= k1 < k2 < updates@.len() implies !((#[trigger] updates@[k1]).x
                        == (#[trigger] updates@[k2]).x && updates@[k1].y == updates@[k2].y) by {
                    if k2 == updates0.len() {
                        assert(updates@[k1] == updates0[k1]);
                        assert(!stack0.contains((updates0[k1].x, updates0[k1].y)));
                        assert(stack0.contains((x, y)));
                    }
                }
                assert forall|px: usize, py: usize|
                    #![trigger cell_differs(g, px, py)]
                    px < g.size_x && py < g.size_y && visited@[cell_index(g.size_y, px, py)]
                        && !to_explore@.contains((px, py)) && cell_differs(g, px, py)
                    implies exists|k2: int|
                    0 <= k2 < updates@.len() && updates@[k2].x == px && updates@[k2].y == py by {
                    lemma_cell_index_props(g.size_x, g.size_y, px, py);
                    lemma_cell_index_props(g.size_x, g.size_y, x, y);
                    if (px, py) == (x, y) {
                        assert(updates@[updates0.len() as int].x == px && updates@[
                            updates0.len() as int
                        ].y == py);
                    } else if visited0[cell_index(g.size_y, px, py)] {
                        if stack0.contains((px, py)) {
                            assert(to_explore@.contains((px, py)));
                        } else {
                            let k2 = choose|k2: int|
                                0 <= k2 < updates0.len() && updates0[k2].x == px && updates0[k2].y
                                    == py;
                            assert(updates@[k2] == updates0[k2]);
                        }
                    } else {
                        assert(to_explore@.contains((px, py)));
                    }
                }
            }
        }
        proof {
            assert forall|px: usize, py: usize|
                px < g.size_x && py < g.size_y && #[trigger] reachable(g, (px, py))
                    && cell_differs(g, px, py) implies exists|k: int|
                0 <= k < updates@.len() && updates@[k].x == px && updates@[k].y == py by {
                let n = choose|n: nat| reach_n(g, (px, py), n);
                lemma_closed_covers_reachable(g, visited@, to_explore@, (px, py), n);
                lemma_cell_index_props(g.size_x, g.size_y, px, py);
            }
            assert forall|k: int| 0 <= k < updates@.len() implies restores_cell(
                g,
                #[trigger] updates@[k],
            ) && reachable(g, (updates@[k].x, updates@[k].y)) by {
                lemma_cell_index_props(g.size_x, g.size_y, updates@[k].x, updates@[k].y);
            }
        }
        updates
    }

    /// The in-bounds 4-connected neighbors of `(x, y)` whose original terrain
    /// belongs to a level: every level neighbor appears, and nothing else.
    fn valid_neighbours(&self, x: usize, y: usize) -> (r: Vec<(usize, usize)>)
        requires
            self@.wf(),
            x < self@.size_x,
            y < self@.size_y,
        ensures
            forall|j: int|
                0 <= j < r@.len() ==> adjacent((x, y), #[trigger] r@[j]) && is_level_cell(
                    self@,
                    r@[j].0,
                    r@[j].1,
                ),
            forall|c: (usize, usize)|
                #[trigger] adjacent((x, y), c) && is_level_cell(self@, c.0, c.1) ==> r@.contains(c),
    {
        let ghost g = self@;
        let mut r: Vec<(usize, usize)> = Vec::new();
        let ghost mut i_up: int = 0;
        let ghost mut i_down: int = 0;
        let ghost mut i_left: int = 0;
        let ghost mut i_right: int = 0;
        if let Some((nx, ny)) = try_step(x, y, Direction::Up, self.size_x, self.size_y) {
            if self.is_level_char(nx, ny) {
                proof {
                    i_up = r@.len() as int;
                }
                r.push((nx, ny));
            }
        }
        proof {
            assert(match spec_try_step(x, y, Direction::Up, g.size_x, g.size_y) {
                Some(cc) => is_level_cell(g, cc.0, cc.1) ==> 0 <= i_up < r@.len() && r@[i_up]
                    == cc,
                None => true,
            });
        }
        if let Some((nx, ny)) = try_step(x, y, Direction::Down, self.size_x, self.size_y) {
            if self.is_level_char(nx, ny) {
                proof {
                    i_down = r@.len() as int;
                }
                r.push((nx, ny));
            }
        }
        proof {
            assert(match spec_try_step(x, y, Direction::Down, g.size_x, g.size_y) {
                Some(cc) => is_level_cell(g, cc.0, cc.1) ==> 0 <= i_down < r@.len() && r@[i_down]
                    == cc,
                None => true,
            });
        }
        if let Some((nx, ny)) = try_step(x, y, Direction::Left, self.size_x, self.size_y) {
            if self.is_level_char(nx, ny) {
                proof {
                    i_left = r@.len() as int;
                }
                r.push((nx, ny));
            }
        }
        proof {
            assert(match spec_try_step(x, y, Direction::Left, g.size_x, g.size_y) {
                Some(cc) => is_level_cell(g, cc.0, cc.1) ==> 0 <= i_left < r@.len() && r@[i_left]
                    == cc,
                None => true,
            });
        }
        if let Some((nx, ny)) = try_step(x, y, Direction::Right, self.size_x, self.size_y) {
            if self.is_level_char(nx, ny) {
                proof {
                    i_right = r@.len() as int;
                }
                r.push((nx, ny));
            }
        }
        proof {
            assert(match spec_try_step(x, y, Direction::Right, g.size_x, g.size_y) {
                Some(cc) => is_level_cell(g, cc.0, cc.1) ==> 0 <= i_right < r@.len() && r@[i_right]
                    == cc,
                None => true,
            });
            assert forall|c: (usize, usize)|
                #[trigger] adjacent((x, y), c) && is_level_cell(g, c.0, c.1) implies r@.contains(
                c,
            ) by {
                if c.1 == y && c.0 + 1 == x {
                    assert(spec_try_step(x, y, Direction::Up, g.size_x, g.size_y) == Some(c));
                    assert(r@[i_up] == c);
                } else if c.1 == y && c.0 == x + 1 {
                    assert(spec_try_step(x, y, Direction::Down, g.size_x, g.size_y) == Some(c));
                    assert(r@[i_down] == c);
                } else if c.0 == x && c.1 + 1 == y {
                    assert(spec_try_step(x, y, Direction::Left, g.size_x, g.size_y) == Some(c));
                    assert(r@[i_left] == c);
                } else {
                    assert(c.0 == x && c.1 == y + 1);
                    assert(spec_try_step(x, y, Direction::Right, g.size_x, g.size_y) == Some(c));
                    assert(r@[i_right] == c);
                }
            }
        }
        r
    }
}


/// Whether one of the first `k` deltas targets cell `(x, y)`.
pub open spec fn delta_before(changes: Seq<OneTileUpdate>, k: int, x: usize, y: usize) -> bool {
    exists|j: int| 0 <= j < k && (#[trigger] changes[j]).x == x && changes[j].y == y
}

/// For an in-bounds flat index, division and remainder recover the cell, and
/// `reachable_idx` agrees with `reachable` on it.
pub proof fn lemma_idx_to_cell(g: GameView, i: int)
    requires
        g.wf(),
        0 <= i < g.size_x * g.size_y,
    ensures
        0 <= i / (g.size_y as int) < g.size_x,
        0 <= i % (g.size_y as int) < g.size_y,
        cell_index(g.size_y, (i / (g.size_y as int)) as usize, (i % (g.size_y as int)) as usize)
            == i,
        reachable_idx(g, i) == reachable(
            g,
            (((i / (g.size_y as int)) as usize), ((i % (g.size_y as int)) as usize)),
        ),
{
    let d = g.size_y as int;
    lemma_fundamental_div_mod(i, d);
    lemma_mod_bound(i, d);
    lemma_mul_is_commutative(d, i / d);
    if i / d < 0 {
        vstd::arithmetic::mul::lemma_mul_inequality(i / d, -1, d);
    }
    if i / d >= g.size_x {
        vstd::arithmetic::mul::lemma_mul_inequality(g.size_x as int, i / d, d);
        lemma_mul_is_commutative(g.size_x as int, d);
    }
}

impl Game {
    /// Restore the player's connected sub-level to its originally parsed
    /// configuration and clear the undo queue, without recording to the
    /// action log; fail, changing nothing, when no reachable cell differs.
    pub(crate) fn reset_current_level_no_history(&mut self) -> (r: bool)
        requires
            old(self)@.wf(),
        ensures
            r == reset_enabled(old(self)@),
            r ==> final(self)@ == reset_no_history_spec(old(self)@),
            !r ==> final(self)@ == old(self)@,
            final(self)@.wf(),
    {
        let ghost g = old(self)@;
        let changes = self.current_level_diff();
        if changes.len() == 0 {
            proof {
                if reset_enabled(g) {
                    let c = choose|c: (usize, usize)|
                        #[trigger] reachable(g, c) && cell_differs(g, c.0, c.1);
                    let n = choose|n: nat| reach_n(g, c, n);
                    lemma_reach_n_level(g, c, n);
                    assert(reachable(g, (c.0, c.1)) && cell_differs(g, c.0, c.1));
                    assert(false);
                }
            }
            return false;
        }
        let n = changes.len();
        let mut k: usize = 0;
        while k < n
            invariant
                g.wf(),
                n == changes@.len(),
                k <= n,
                self@.size_x == g.size_x,
                self@.size_y == g.size_y,
                self@.orig_tiles == g.orig_tiles,
                self@.orig_snowballs == g.orig_snowballs,
                self@.player == g.player,
                self@.queue == g.queue,
                self@.history == g.history,
                self@.tiles.len() == g.tiles.len(),
                self@.snowballs.len() == g.snowballs.len(),
                forall|j: int|
                    0 <= j < changes@.len() ==> restores_cell(g, #[trigger] changes@[j])
                        && reachable(g, (changes@[j].x, changes@[j].y)),
                forall|j1: int, j2: int|
                    0 <= j1 < j2 < changes@.len() ==> !((#[trigger] changes@[j1]).x
                        == (#[trigger] changes@[j2]).x && changes@[j1].y == changes@[j2].y),
                forall|x: usize, y: usize|
                    #![trigger cell_index(g.size_y, x, y)]
                    x < g.size_x && y < g.size_y ==> if delta_before(changes@, k as int, x, y) {
                        self@.tiles[cell_index(g.size_y, x, y)] == g.orig_tiles[cell_index(
                            g.size_y,
                            x,
                            y,
                        )] && self@.snowballs[cell_index(g.size_y, x, y)] == g.orig_snowballs[
                            cell_index(g.size_y, x, y)
                        ]
                    } else {
                        self@.tiles[cell_index(g.size_y, x, y)] == g.tiles[cell_index(
                            g.size_y,
                            x,
                            y,
                        )] && self@.snowballs[cell_index(g.size_y, x, y)] == g.snowballs[
                            cell_index(g.size_y, x, y)
                        ]
                    },
            decreases n - k,
        {
            let ghost pre = self@;
            let u = changes[k];
            proof {
                lemma_cell_index_props(g.size_x, g.size_y, u.x, u.y);
            }
            self.apply_unit_update(&u);
            proof {
                assert forall|x: usize, y: usize|
                    x < g.size_x && y < g.size_y implies if delta_before(
                    changes@,
                    k + 1,
                    x,
                    y,
                ) {
                    self@.tiles[#[trigger] cell_index(g.size_y, x, y)] == g.orig_tiles[cell_index(
                        g.size_y,
                        x,
                        y,
                    )] && self@.snowballs[cell_index(g.size_y, x, y)] == g.orig_snowballs[
                        cell_index(g.size_y, x, y)
                    ]
                } else {
                    self@.tiles[cell_index(g.size_y, x, y)] == g.tiles[cell_index(g.size_y, x, y)]
                        && self@.snowballs[cell_index(g.size_y, x, y)] == g.snowballs[cell_index(
                        g.size_y,
                        x,
                        y,
                    )]
                } by {
                    lemma_cell_index_props(g.size_x, g.size_y, x, y);
                    if x == u.x && y == u.y {
                        assert(!delta_before(changes@, k as int, x, y));
                        assert(delta_before(changes@, k + 1, x, y));
                    } else {
                        if cell_index(g.size_y, x, y) == cell_index(g.size_y, u.x, u.y) {
                            lemma_cell_index_injective(g.size_x, g.size_y, x, y, u.x, u.y);
                        }
                        assert(delta_before(changes@, k + 1, x, y) == delta_before(
                            changes@,
                            k as int,
                            x,
                            y,
                        ));
                    }
                }
            }
            k = k + 1;
        }
        self.rewind_queue.clear();
        proof {
            assert(reachable(g, (changes@[0].x, changes@[0].y)) && cell_differs(
                g,
                changes@[0].x,
                changes@[0].y,
            ));
            let rg = reset_no_history_spec(g);
            assert forall|i: int| 0 <= i < g.tiles.len() implies self@.tiles[i] == rg.tiles[i]
                && self@.snowballs[i] == rg.snowballs[i] by {
                lemma_idx_to_cell(g, i);
                let x = (i / (g.size_y as int)) as usize;
                let y = (i % (g.size_y as int)) as usize;
                if reachable(g, (x, y)) && cell_differs(g, x, y) {
                    assert(delta_before(changes@, n as int, x, y));
                } else {
                    if delta_before(changes@, n as int, x, y) {
                        let j = choose|j: int|
                            0 <= j < n && (#[trigger] changes@[j]).x == x && changes@[j].y == y;
                        assert(restores_cell(g, changes@[j]));
                        assert(false);
                    }
                }
            }
            assert(self@.tiles =~= rg.tiles);
            assert(self@.snowballs =~= rg.snowballs);
            assert(self@ =~= rg);
        }
        true
    }

    /// Restore the player's connected sub-level, clear the undo queue, and
    /// record the reset marker in the action log; fail, changing nothing,
    /// when the reset would be a no-op.
    pub fn reset_current_level(&mut self) -> (r: bool)
        requires
            old(self)@.wf(),
        ensures
            r == reset_enabled(old(self)@),
            r ==> final(self)@ == reset_apply_spec(old(self)@),
            !r ==> final(self)@ == old(self)@,
            final(self)@.wf(),
    {
        if self.reset_current_level_no_history() {
            proof {
                reveal_strlit("T");
            }
            self.push_history_char("T");
            proof {
                assert("T"@[0] == 'T');
                assert(self@ =~= reset_apply_spec(old(self)@));
                assert forall|i: int|
                    0 <= i < self@.history.len() implies crate::base::is_action_char(
                    #[trigger] self@.history[i],
                ) by {
                    if i < self@.history.len() - 1 {
                        assert(self@.history[i] == reset_no_history_spec(old(self)@).history[i]);
                    }
                }
                assert(self@.wf());
            }
            true
        } else {
            false
        }
    }
}

} // verus!
