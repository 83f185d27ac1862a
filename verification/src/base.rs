//! The value types of the engine: terrain tiles, snowballs, directions, and
//! the plain diff data that a resolved move produces.

use vstd::prelude::*;

verus! {

/// Movable occupant of a cell: a single-tier ball, a two-tier stack, or the
/// terminal three-tier `Snowman`, which can neither merge further nor be
/// split by pushing.
#[derive(Clone, Copy, PartialEq, Eq, Structural, Debug)]
pub enum SnowBall {
    Small,
    Medium,
    Large,
    SmallOnLarge,
    SmallOnMedium,
    MediumOnLarge,
    Snowman,
}

/// Static terrain kind of a grid cell.  `Hedge`, `Tree` and `Obstacle` block
/// entry; `Snow` is consumed (becomes `Dirt`) when a snowball grows on it.
#[derive(Clone, Copy, PartialEq, Eq, Structural, Debug)]
pub enum Tile {
    Empty,
    Dirt,
    Snow,
    Hedge,
    Tree,
    Obstacle,
}

/// A 4-connected direction of movement.  `Up` decreases the row coordinate
/// `x`, `Right` increases the column coordinate `y`.
#[derive(Clone, Copy, PartialEq, Eq, Structural, Debug)]
pub enum Direction {
    Up,
    Right,
    Down,
    Left,
}

/// What `SnowBall::grow` returns: one tier up for a single-tier ball
/// (`Large` stays `Large`), `None` for a stack or a snowman.
pub open spec fn spec_grow(b: SnowBall) -> Option<SnowBall> {
    match b {
        SnowBall::Small => Some(SnowBall::Medium),
        SnowBall::Medium => Some(SnowBall::Large),
        SnowBall::Large => Some(SnowBall::Large),
        _ => None,
    }
}

/// The ordered, non-commutative merge table for pushing the snowball `target`
/// onto the cell occupied by `beyond`; `None` for every unlisted pair.
pub open spec fn spec_merge(target: SnowBall, beyond: SnowBall) -> Option<SnowBall> {
    match (target, beyond) {
        (SnowBall::Small, SnowBall::Medium) => Some(SnowBall::SmallOnMedium),
        (SnowBall::Small, SnowBall::Large) => Some(SnowBall::SmallOnLarge),
        (SnowBall::Medium, SnowBall::Large) => Some(SnowBall::MediumOnLarge),
        (SnowBall::Small, SnowBall::MediumOnLarge) => Some(SnowBall::Snowman),
        _ => None,
    }
}

/// How a two-tier stack splits when pushed towards a free cell: the larger
/// tier stays (`still`), the smaller tier moves on (`moved`).  `None` for
/// single-tier balls and for the snowman.
pub open spec fn spec_split(b: SnowBall) -> Option<(SnowBall, SnowBall)> {
    match b {
        SnowBall::SmallOnMedium => Some((SnowBall::Medium, SnowBall::Small)),
        SnowBall::SmallOnLarge => Some((SnowBall::Large, SnowBall::Small)),
        SnowBall::MediumOnLarge => Some((SnowBall::Large, SnowBall::Medium)),
        _ => None,
    }
}

/// The snowball initially present on a cell parsed from a level asset
/// character, if any.
pub open spec fn spec_ball_from_char(c: char) -> Option<SnowBall> {
    match c {
        's' | 'S' => Some(SnowBall::Small),
        'm' | 'M' => Some(SnowBall::Medium),
        'l' | 'L' => Some(SnowBall::Large),
        'x' | 'X' => Some(SnowBall::SmallOnMedium),
        _ => None,
    }
}

impl SnowBall {
    /// Return a grown version of the snowball, which must be a single small,
    /// medium or large ball; `None` otherwise.
    pub fn grow(self) -> (r: Option<SnowBall>)
        ensures
            r == spec_grow(self),
    {
        match self {
            SnowBall::Small => Some(SnowBall::Medium),
            SnowBall::Medium | SnowBall::Large => Some(SnowBall::Large),
            _ => Option::<SnowBall>::None,
        }
    }

    /// Parse the snowball marked by a level asset character, if any.
    pub fn from_char(c: char) -> (r: Option<SnowBall>)
        ensures
            r == spec_ball_from_char(c),
    {
        match c {
            's' | 'S' => Some(SnowBall::Small),
            'm' | 'M' => Some(SnowBall::Medium),
            'l' | 'L' => Some(SnowBall::Large),
            'x' | 'X' => Some(SnowBall::SmallOnMedium),
            _ => None,
        }
    }
}

/// Whether a tile blocks entry by the player or by a pushed snowball.
pub open spec fn spec_blocks(t: Tile) -> bool {
    t == Tile::Hedge || t == Tile::Tree || t == Tile::Obstacle
}

/// The terrain kind a level asset character stands for.  Characters that mark
/// a snowball on snow are upper case; unknown characters (the player marker
/// among them) parse as `Empty`.
pub open spec fn spec_tile_from_char(c: char) -> Tile {
    match c {
        ' ' => Tile::Empty,
        '.' | 's' | 'm' | 'l' | 'x' => Tile::Dirt,
        ',' | 'S' | 'M' | 'L' | 'X' => Tile::Snow,
        'h' | '#' => Tile::Hedge,
        't' => Tile::Tree,
        'o' => Tile::Obstacle,
        _ => Tile::Empty,
    }
}

impl Tile {
    /// Whether this tile blocks entry.
    pub fn blocks(self) -> (r: bool)
        ensures
            r == spec_blocks(self),
    {
        self == Self::Hedge || self == Self::Tree || self == Self::Obstacle
    }

    /// Parse the terrain kind of a level asset character.
    pub fn from_char(c: char) -> (r: Tile)
        ensures
            r == spec_tile_from_char(c),
    {
        match c {
            ' ' => Tile::Empty,
            '.' | 's' | 'm' | 'l' | 'x' => Tile::Dirt,
            ',' | 'S' | 'M' | 'L' | 'X' => Tile::Snow,
            'h' | '#' => Tile::Hedge,
            't' => Tile::Tree,
            'o' => Tile::Obstacle,
            _ => Tile::Empty,
        }
    }
}

/// The character under which a direction is recorded in the action log.
pub open spec fn char_of_dir(d: Direction) -> char {
    match d {
        Direction::Up => 'U',
        Direction::Left => 'L',
        Direction::Down => 'D',
        Direction::Right => 'R',
    }
}

/// The direction a recorded action-log character stands for.  Meaningful only
/// for `U`, `L`, `D` and `R`.
pub open spec fn dir_of_char(c: char) -> Direction {
    if c == 'U' {
        Direction::Up
    } else if c == 'L' {
        Direction::Left
    } else if c == 'D' {
        Direction::Down
    } else {
        Direction::Right
    }
}

/// The characters that may stand in the action log.
pub open spec fn is_action_char(c: char) -> bool {
    c == 'U' || c == 'L' || c == 'D' || c == 'R' || c == 'T'
}

/// The characters accepted in a persisted history string: the action-log
/// alphabet plus ignored line breaks.
pub open spec fn is_history_char(c: char) -> bool {
    is_action_char(c) || c == '\n'
}

impl Direction {
    /// The action-log record of this direction, as a one-character string.
    pub fn to_str(self) -> (r: &'static str)
        ensures
            r@ =~= seq![char_of_dir(self)],
    {
        proof {
            reveal_strlit("U");
            reveal_strlit("L");
            reveal_strlit("D");
            reveal_strlit("R");
        }
        match self {
            Direction::Up => "U",
            Direction::Left => "L",
            Direction::Down => "D",
            Direction::Right => "R",
        }
    }
}

/// Where one step in direction `dir` from `(x, y)` leads on a grid of
/// `size_x` rows and `size_y` columns; `None` if the step leaves the grid.
pub open spec fn spec_try_step(
    x: usize,
    y: usize,
    dir: Direction,
    size_x: usize,
    size_y: usize,
) -> Option<(usize, usize)> {
    match dir {
        Direction::Up => if x != 0 {
            Some(((x - 1) as usize, y))
        } else {
            None
        },
        Direction::Right => if y != size_y - 1 {
            Some((x, (y + 1) as usize))
        } else {
            None
        },
        Direction::Down => if x != size_x - 1 {
            Some(((x + 1) as usize, y))
        } else {
            None
        },
        Direction::Left => if y != 0 {
            Some((x, (y - 1) as usize))
        } else {
            None
        },
    }
}

/// Step once from `(x, y)` in direction `dir`, or report that the step would
/// leave the grid.
pub fn try_step(x: usize, y: usize, dir: Direction, size_x: usize, size_y: usize) -> (r: Option<
    (usize, usize),
>)
    requires
        x < size_x,
        y < size_y,
    ensures
        r == spec_try_step(x, y, dir, size_x, size_y),
        r matches Some(p) ==> p.0 < size_x && p.1 < size_y,
{
    match dir {
        Direction::Up => if x != 0 {
            Some((x - 1, y))
        } else {
            None
        },
        Direction::Right => if y != size_y - 1 {
            Some((x, y + 1))
        } else {
            None
        },
        Direction::Down => if x != size_x - 1 {
            Some((x + 1, y))
        } else {
            None
        },
        Direction::Left => if y != 0 {
            Some((x, y - 1))
        } else {
            None
        },
    }
}

/// Data allowing to update one cell: the cell's coordinates and, each one
/// optional, a new tile and a new occupant.  An absent attribute is left
/// alone on application.
#[derive(Clone, Copy, Debug)]
pub struct OneTileUpdate {
    pub x: usize,
    pub y: usize,
    pub new_tile: Option<Tile>,
    pub new_snowball: Option<Option<SnowBall>>,
}

/// Data allowing to perform one accepted move: the player's resulting
/// coordinate (always present, an unchanged value allowed) and up to two
/// per-cell deltas.
#[derive(Clone, Copy, Debug)]
pub struct Update {
    pub player: (usize, usize),
    pub tiles: Option<(OneTileUpdate, OneTileUpdate)>,
}

/// A pair of updates (`new`, `old`) that are each other's opposite: applying
/// `new` and then `old` leaves the grid state as it was.
#[derive(Clone, Copy, Debug)]
pub struct MapDiff {
    pub new: Update,
    pub old: Update,
}

/// Whether a per-cell delta stays inside a grid of the given extents.
pub open spec fn unit_update_wf(u: OneTileUpdate, size_x: usize, size_y: usize) -> bool {
    u.x < size_x && u.y < size_y
}

/// Whether an update stays inside a grid of the given extents.
pub open spec fn update_wf(u: Update, size_x: usize, size_y: usize) -> bool {
    &&& u.player.0 < size_x
    &&& u.player.1 < size_y
    &&& match u.tiles {
        None => true,
        Some((a, b)) => unit_update_wf(a, size_x, size_y) && unit_update_wf(b, size_x, size_y),
    }
}

} // verus!
