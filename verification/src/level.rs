//! Loading a level asset: a rectangular character grid, rows separated by
//! line breaks, consumed once at startup.  The asset fixes the grid extents,
//! the initial terrain and occupants, and the player's starting cell.

use vstd::prelude::*;
use vstd::string::StrSliceExecFns;

use crate::base::{spec_ball_from_char, spec_tile_from_char, SnowBall, Tile, Update};
use crate::game::{
    cell_index, lemma_cell_index_injective, lemma_cell_index_props, Game, GameView,
};
use std::collections::VecDeque;

verus! {

broadcast use crate::game::lemma_game_view;

/// Position of the cell in row `x`, column `y` within the trimmed asset
/// text, whose rows of `sy` characters are separated by single line breaks.
pub open spec fn asset_index(sy: int, x: int, y: int) -> int {
    x * (sy + 1) + y
}

/// Index of the first line break, or the length when there is none.
pub open spec fn first_newline(s: Seq<char>) -> int
    decreases s.len(),
{
    if s.len() == 0 {
        0
    } else if s[0] == '\n' {
        0
    } else {
        1 + first_newline(s.drop_first())
    }
}

/// How many player markers the text holds.
pub open spec fn player_count(s: Seq<char>) -> int
    decreases s.len(),
{
    if s.len() == 0 {
        0
    } else {
        player_count(s.drop_last()) + if s.last() == 'P' {
            1int
        } else {
            0int
        }
    }
}

/// The asset text without one optional trailing line break.
pub open spec fn trimmed(s: Seq<char>) -> Seq<char> {
    if s.len() > 0 && s.last() == '\n' {
        s.drop_last()
    } else {
        s
    }
}

/// The column count an asset declares: the length of its first row.
pub open spec fn map_size_y(t: Seq<char>) -> int {
    first_newline(t)
}

/// The row count an asset declares.
pub open spec fn map_size_x(t: Seq<char>) -> int {
    (t.len() as int + 1) / (map_size_y(t) + 1)
}

/// A well-formed level asset: after trimming, a rectangle of `map_size_x`
/// rows of `map_size_y` characters within the supported extents, rows
/// separated by single line breaks, holding exactly one player marker.
pub open spec fn map_ok(s: Seq<char>) -> bool {
    let t = trimmed(s);
    let sy = map_size_y(t);
    let sx = map_size_x(t);
    &&& 1 <= sy <= 999
    &&& 1 <= sx <= 999
    &&& t.len() + 1 == sx * (sy + 1)
    &&& forall|x: int, y: int|
        0 <= x < sx && 0 <= y < sy ==> t[#[trigger] asset_index(sy, x, y)] != '\n'
    &&& forall|x: int| 0 <= x < sx - 1 ==> t[#[trigger] asset_index(sy, x, sy)] == '\n'
    &&& player_count(t) == 1
}

/// The engine state that loading a well-formed asset must produce: extents
/// as declared, every cell parsed from its character, the originals equal to
/// the current contents, the player on the marker's cell, and empty undo
/// queue and action log.
pub open spec fn game_matches_map(g: GameView, s: Seq<char>) -> bool {
    let t = trimmed(s);
    &&& g.size_y == map_size_y(t)
    &&& g.size_x == map_size_x(t)
    &&& g.tiles.len() == g.size_x * g.size_y
    &&& g.snowballs.len() == g.size_x * g.size_y
    &&& g.orig_tiles == g.tiles
    &&& g.orig_snowballs == g.snowballs
    &&& forall|x: usize, y: usize|
        x < g.size_x && y < g.size_y ==> {
            &&& g.tiles[#[trigger] cell_index(g.size_y, x, y)] == spec_tile_from_char(
                t[asset_index(g.size_y as int, x as int, y as int)],
            )
            &&& g.snowballs[cell_index(g.size_y, x, y)] == spec_ball_from_char(
                t[asset_index(g.size_y as int, x as int, y as int)],
            )
        }
    &&& g.player.0 < g.size_x && g.player.1 < g.size_y
    &&& t[asset_index(g.size_y as int, g.player.0 as int, g.player.1 as int)] == 'P'
    &&& g.queue == Seq::<Update>::empty()
    &&& g.history == Seq::<char>::empty()
}

/// A prefix free of line breaks, ended by a line break or by the text's end,
/// determines `first_newline`.
pub proof fn lemma_first_newline_is(s: Seq<char>, k: int)
    requires
        0 <= k <= s.len(),
        forall|j: int| 0 <= j < k ==> s[j] != '\n',
        k < s.len() ==> s[k] == '\n',
    ensures
        first_newline(s) == k,
    decreases s.len(),
{
    if s.len() == 0 {
    } else if s[0] == '\n' {
        assert(k == 0);
    } else {
        assert(k >= 1);
        assert forall|j: int| 0 <= j < k - 1 implies s.drop_first()[j] != '\n' by {
            assert(s.drop_first()[j] == s[j + 1]);
        }
        if k - 1 < s.drop_first().len() {
            assert(s.drop_first()[k - 1] == s[k]);
        }
        lemma_first_newline_is(s.drop_first(), k - 1);
    }
}

impl Game {
    /// Build an engine instance from a level asset.  Returns `None`, leaving
    /// nothing constructed, exactly when the asset is not a rectangle of
    /// rows within the supported extents holding exactly one player marker.
    pub fn instanciate(map: &str) -> (r: Option<Game>)
        ensures
            r is Some <==> map_ok(map@),
            r matches Some(game) ==> game@.wf() && game_matches_map(game@, map@),
    {
        let n0 = map.unicode_len();
        let n: usize = if n0 > 0 && map.get_char(n0 - 1) == '\n' {
            n0 - 1
        } else {
            n0
        };
        let ghost t = trimmed(map@);
        proof {
            assert(t =~= map@.subrange(0, n as int));
        }
        // the supported extents bound a well-formed asset's length
        if n >= 999000 {
            proof {
                if map_ok(map@) {
                    vstd::arithmetic::mul::lemma_mul_upper_bound(
                        map_size_x(t),
                        999,
                        map_size_y(t) + 1,
                        1000,
                    );
                }
            }
            return None;
        }
        // the first row fixes the column count
        let mut sy: usize = 0;
        let mut found: bool = false;
        while !found && sy < n
            invariant
                n == t.len(),
                n < 999000,
                n <= map@.len(),
                forall|j: int| 0 <= j < n ==> t[j] == map@[j],
                sy <= n,
                forall|j: int| 0 <= j < sy ==> t[j] != '\n',
                found ==> sy < n && t[sy as int] == '\n',
            decreases n - sy, (if found { 0int } else { 1int }),
        {
            if map.get_char(sy) == '\n' {
                found = true;
            } else {
                sy = sy + 1;
            }
        }
        proof {
            lemma_first_newline_is(t, sy as int);
        }
        if sy == 0 || sy > 999 {
            return None;
        }
        // the length must make whole rows
        let rows = (n + 1) / (sy + 1);
        let rem = (n + 1) % (sy + 1);
        if rem != 0 {
            proof {
                if map_ok(map@) {
                    vstd::arithmetic::div_mod::lemma_fundamental_div_mod_converse(
                        n + 1,
                        sy + 1,
                        map_size_x(t),
                        0,
                    );
                }
            }
            return None;
        }
        let sx = rows;
        proof {
            vstd::arithmetic::div_mod::lemma_fundamental_div_mod(n as int + 1, sy as int + 1);
        }
        if sx == 0 || sx > 999 {
            proof {
                assert(sx == map_size_x(t));
            }
            return None;
        }
        proof {
            vstd::arithmetic::mul::lemma_mul_is_commutative(sx as int, sy as int + 1);
            assert(n + 1 == sx * (sy + 1));
            vstd::arithmetic::div_mod::lemma_fundamental_div_mod_converse(
                n as int + 1,
                sy as int + 1,
                sx as int,
                0,
            );
            assert(map_size_x(t) == sx);
        }
        // one pass parses the cells, checks the row separators, and finds
        // the player marker
        let mut tiles: Vec<Tile> = Vec::new();
        let mut snowballs: Vec<Option<SnowBall>> = Vec::new();
        let mut orig_tiles: Vec<Tile> = Vec::new();
        let mut orig_snowballs: Vec<Option<SnowBall>> = Vec::new();
        let mut player: Option<(usize, usize)> = None;
        let mut pcount: usize = 0;
        let mut cx: usize = 0;
        let mut cy: usize = 0;
        let mut i: usize = 0;
        while i < n
            invariant
                t == trimmed(map@),
                n == t.len(),
                n < 999000,
                n <= map@.len(),
                forall|j: int| 0 <= j < n ==> t[j] == map@[j],
                1 <= sy <= 999,
                1 <= sx <= 999,
                n + 1 == sx * (sy + 1),
                map_size_y(t) == sy as int,
                map_size_x(t) == sx as int,
                i <= n,
                cy <= sy,
                cx < sx,
                i == cx * (sy + 1) + cy,
                tiles@.len() == cx * sy + cy,
                snowballs@.len() == tiles@.len(),
                orig_tiles@ == tiles@,
                orig_snowballs@ == snowballs@,
                forall|x: usize, y: usize|
                    y < sy && 0 <= #[trigger] cell_index(sy, x, y) < tiles@.len() ==> {
                        &&& tiles@[cell_index(sy, x, y)] == spec_tile_from_char(
                            t[asset_index(sy as int, x as int, y as int)],
                        )
                        &&& snowballs@[cell_index(sy, x, y)] == spec_ball_from_char(
                            t[asset_index(sy as int, x as int, y as int)],
                        )
                        &&& t[asset_index(sy as int, x as int, y as int)] != '\n'
                    },
                forall|x: int| 0 <= x < cx ==> t[#[trigger] asset_index(sy as int, x, sy as int)]
                    == '\n',
                pcount == player_count(t.take(i as int)),
                pcount <= i,
                player matches Some(p) ==> p.0 < sx && p.1 < sy && t[asset_index(
                    sy as int,
                    p.0 as int,
                    p.1 as int,
                )] == 'P',
                player is None <==> pcount == 0,
            decreases n - i,
        {
            let c = map.get_char(i);
            proof {
                assert(t[i as int] == map@[i as int]);
                assert(t.take(i + 1).drop_last() =~= t.take(i as int));
                assert(t.take(i + 1).last() == t[i as int]);
            }
            if cy == sy {
                // expected position of a row separator
                if c != '\n' {
                    proof {
                        if map_ok(map@) {
                            assert(i + 1 == (cx + 1) * (sy + 1)) by {
                                vstd::arithmetic::mul::lemma_mul_is_distributive_add_other_way(
                                    sy as int + 1,
                                    cx as int,
                                    1,
                                );
                            }
                            assert((cx as int + 1) * (sy as int + 1) < sx * (sy as int + 1));
                            vstd::arithmetic::mul::lemma_mul_strict_inequality_converse(
                                cx as int + 1,
                                sx as int,
                                sy as int + 1,
                            );
                            assert(t[asset_index(sy as int, cx as int, sy as int)] == '\n');
                        }
                    }
                    return None;
                }
                proof {
                    vstd::arithmetic::mul::lemma_mul_is_distributive_add_other_way(
                        sy as int + 1,
                        cx as int,
                        1,
                    );
                    vstd::arithmetic::mul::lemma_mul_is_distributive_add_other_way(
                        sy as int,
                        cx as int,
                        1,
                    );
                    assert((cx as int + 1) * (sy as int + 1) == i + 1);
                    assert((cx as int + 1) * (sy as int + 1) < sx * (sy as int + 1));
                    vstd::arithmetic::mul::lemma_mul_strict_inequality_converse(
                        cx as int + 1,
                        sx as int,
                        sy as int + 1,
                    );
                }
                cx = cx + 1;
                cy = 0;
            } else {
                // a cell of the current row
                if c == '\n' {
                    proof {
                        if map_ok(map@) {
                            assert(t[asset_index(sy as int, cx as int, cy as int)] != '\n');
                        }
                    }
                    return None;
                }
                let ghost old_tiles = tiles@;
                tiles.push(Tile::from_char(c));
                snowballs.push(SnowBall::from_char(c));
                orig_tiles.push(Tile::from_char(c));
                orig_snowballs.push(SnowBall::from_char(c));
                if c == 'P' {
                    player = Some((cx, cy));
                    pcount = pcount + 1;
                } else {
                    proof {
                        assert(t.take(i + 1).last() != 'P');
                    }
                }
                cy = cy + 1;
                proof {
                    vstd::arithmetic::mul::lemma_mul_inequality(
                        cx as int + 1,
                        sx as int,
                        sy as int,
                    );
                    vstd::arithmetic::mul::lemma_mul_is_distributive_add_other_way(
                        sy as int,
                        cx as int,
                        1,
                    );
                    assert forall|x: usize, y: usize|
                        y < sy && 0 <= #[trigger] cell_index(sy, x, y) < tiles@.len() implies {
                        &&& tiles@[cell_index(sy, x, y)] == spec_tile_from_char(
                            t[asset_index(sy as int, x as int, y as int)],
                        )
                        &&& snowballs@[cell_index(sy, x, y)] == spec_ball_from_char(
                            t[asset_index(sy as int, x as int, y as int)],
                        )
                        &&& t[asset_index(sy as int, x as int, y as int)] != '\n'
                    } by {
                        if cell_index(sy, x, y) < old_tiles.len() {
                            assert(tiles@[cell_index(sy, x, y)] == old_tiles[cell_index(
                                sy,
                                x,
                                y,
                            )]);
                        } else {
                            // the freshly parsed cell: recover (cx, cy) from
                            // its index
                            assert(cell_index(sy, x, y) == old_tiles.len());
                            assert(x * sy <= cell_index(sy, x, y));
                            if x >= sx {
                                vstd::arithmetic::mul::lemma_mul_inequality(
                                    sx as int,
                                    x as int,
                                    sy as int,
                                );
                                vstd::arithmetic::mul::lemma_mul_upper_bound(
                                    sx as int,
                                    999,
                                    sy as int,
                                    999,
                                );
                                assert(false);
                            }
                            lemma_cell_index_injective(sx, sy, x, y, cx, (cy - 1) as usize);
                            assert(asset_index(sy as int, x as int, y as int) == i);
                        }
                    }
                }
            }
            i = i + 1;
        }
        // the scan must end exactly at the end of the last row
        proof {
            vstd::arithmetic::div_mod::lemma_fundamental_div_mod_converse(
                n as int + 1,
                sy as int + 1,
                sx as int,
                0,
            );
            if cy < sy {
                vstd::arithmetic::div_mod::lemma_fundamental_div_mod_converse(
                    n as int + 1,
                    sy as int + 1,
                    cx as int,
                    cy as int + 1,
                );
                assert(false);
            }
            vstd::arithmetic::mul::lemma_mul_is_distributive_add_other_way(
                sy as int + 1,
                cx as int,
                1,
            );
            vstd::arithmetic::div_mod::lemma_fundamental_div_mod_converse(
                n as int + 1,
                sy as int + 1,
                cx as int + 1,
                0,
            );
            assert(cx + 1 == sx);
            assert(tiles@.len() == cx * sy + sy);
            vstd::arithmetic::mul::lemma_mul_is_distributive_add_other_way(
                sy as int,
                cx as int,
                1,
            );
            assert(tiles@.len() == sx * sy);
            assert(t.take(n as int) =~= t);
        }
        if pcount != 1 {
            return None;
        }
        let (px, py) = match player {
            Some(p) => p,
            None => {
                return None;
            },
        };
        let game = Game {
            tiles,
            snowballs,
            player: (px, py),
            size_x: sx,
            size_y: sy,
            orig_tiles,
            orig_snowballs,
            rewind_queue: VecDeque::new(),
            input_history: String::new(),
        };
        proof {
            assert(game@.queue =~= Seq::<Update>::empty());
            assert(game@.history =~= Seq::<char>::empty());
            // the asset is well formed
            assert forall|x: int, y: int| 0 <= x < sx && 0 <= y < sy implies t[#[trigger]
            asset_index(sy as int, x, y)] != '\n' by {
                lemma_cell_index_props(sx, sy, x as usize, y as usize);
                assert(cell_index(sy, x as usize, y as usize) < game@.tiles.len());
            }
            assert(map_ok(map@));
            // and the engine matches it
            assert forall|x: usize, y: usize| x < sx && y < sy implies {
                &&& game@.tiles[#[trigger] cell_index(sy, x, y)] == spec_tile_from_char(
                    t[asset_index(sy as int, x as int, y as int)],
                )
                &&& game@.snowballs[cell_index(sy, x, y)] == spec_ball_from_char(
                    t[asset_index(sy as int, x as int, y as int)],
                )
            } by {
                lemma_cell_index_props(sx, sy, x, y);
            }
            assert(game_matches_map(game@, map@));
            assert(game@.wf());
        }
        Some(game)
    }
}


/// The count of player markers is never negative.
pub proof fn lemma_player_count_nonneg(s: Seq<char>)
    ensures
        player_count(s) >= 0,
    decreases s.len(),
{
    if s.len() > 0 {
        lemma_player_count_nonneg(s.drop_last());
    }
}

/// A text with a player marker holds at least one.
pub proof fn lemma_player_count_at_least_one(s: Seq<char>, i: int)
    requires
        0 <= i < s.len(),
        s[i] == 'P',
    ensures
        player_count(s) >= 1,
    decreases s.len(),
{
    if i < s.len() - 1 {
        assert(s.drop_last()[i] == s[i]);
        lemma_player_count_at_least_one(s.drop_last(), i);
    } else {
        lemma_player_count_nonneg(s.drop_last());
    }
}

/// A text with player markers at two distinct positions holds at least two.
pub proof fn lemma_player_count_at_least_two(s: Seq<char>, i1: int, i2: int)
    requires
        0 <= i1 < i2 < s.len(),
        s[i1] == 'P',
        s[i2] == 'P',
    ensures
        player_count(s) >= 2,
    decreases s.len(),
{
    if i2 == s.len() - 1 {
        assert(s.drop_last()[i1] == s[i1]);
        lemma_player_count_at_least_one(s.drop_last(), i1);
    } else {
        assert(s.drop_last()[i1] == s[i1]);
        assert(s.drop_last()[i2] == s[i2]);
        lemma_player_count_at_least_two(s.drop_last(), i1, i2);
    }
}

/// A well-formed asset determines the loaded engine completely: its one
/// player marker fixes the starting cell, and every other field is a
/// function of the asset's characters.  Two engines loaded from the same
/// unmodified asset are therefore equal in every field.
pub proof fn lemma_loaded_engine_unique(a: GameView, b: GameView, s: Seq<char>)
    requires
        map_ok(s),
        a.wf(),
        b.wf(),
        game_matches_map(a, s),
        game_matches_map(b, s),
    ensures
        a == b,
{
    let t = trimmed(s);
    let sy = a.size_y;
    assert forall|i: int|
        0 <= i < a.tiles.len() implies a.tiles[i] == b.tiles[i] && a.snowballs[i]
        == b.snowballs[i] by {
        crate::reset::lemma_idx_to_cell(a, i);
        let x = (i / (sy as int)) as usize;
        let y = (i % (sy as int)) as usize;
        assert(a.tiles[cell_index(sy, x, y)] == spec_tile_from_char(
            t[asset_index(sy as int, x as int, y as int)],
        ));
        assert(b.tiles[cell_index(sy, x, y)] == spec_tile_from_char(
            t[asset_index(sy as int, x as int, y as int)],
        ));
    }
    assert(a.tiles =~= b.tiles);
    assert(a.snowballs =~= b.snowballs);
    if a.player != b.player {
        let i1 = asset_index(sy as int, a.player.0 as int, a.player.1 as int);
        let i2 = asset_index(sy as int, b.player.0 as int, b.player.1 as int);
        assert(i1 != i2) by {
            vstd::arithmetic::div_mod::lemma_fundamental_div_mod_converse(
                i1,
                sy as int + 1,
                a.player.0 as int,
                a.player.1 as int,
            );
            vstd::arithmetic::div_mod::lemma_fundamental_div_mod_converse(
                i2,
                sy as int + 1,
                b.player.0 as int,
                b.player.1 as int,
            );
        }
        assert(0 <= i1 < t.len() && 0 <= i2 < t.len()) by {
            vstd::arithmetic::mul::lemma_mul_inequality(
                a.player.0 as int + 1,
                a.size_x as int,
                sy as int + 1,
            );
            vstd::arithmetic::mul::lemma_mul_is_distributive_add_other_way(
                sy as int + 1,
                a.player.0 as int,
                1,
            );
            vstd::arithmetic::mul::lemma_mul_inequality(
                b.player.0 as int + 1,
                b.size_x as int,
                sy as int + 1,
            );
            vstd::arithmetic::mul::lemma_mul_is_distributive_add_other_way(
                sy as int + 1,
                b.player.0 as int,
                1,
            );
        }
        if i1 < i2 {
            lemma_player_count_at_least_two(t, i1, i2);
        } else {
            lemma_player_count_at_least_two(t, i2, i1);
        }
        assert(false);
    }
    assert(a =~= b);
}

} // verus!
