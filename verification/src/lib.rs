//! A turn-based grid puzzle engine: a player walks over a tile map and pushes
//! snowballs that merge and grow into snowmen.  The engine is the deterministic
//! move-resolution state machine, its reversible diff/undo model, and the
//! connected-region level reset.  Rendering, window events and file storage are
//! external collaborators: the engine only consumes level assets and history
//! strings, and produces history strings.

pub mod base;
pub mod game;
pub mod resolver;
pub mod laws;
pub mod reset;
pub mod history;
pub mod level;
pub mod viewport;

pub use base::{try_step, Direction, MapDiff, OneTileUpdate, SnowBall, Tile, Update};
pub use game::{Game, GameView, REWIND_CAPACITY};
pub use viewport::{Viewport, TILE_SIDE};
