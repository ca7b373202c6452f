//! The grid engine of a 2048-style sliding-tile puzzle.
//!
//! A board is a fixed grid of cells, each empty or holding one tile. A move
//! pushes every tile as far as it goes toward one edge. Two tiles of the same
//! rank that meet merge into one tile of the next rank; a tile merges at most
//! once in a move, the pair nearest the edge first, and two tiles of the top
//! rank do not merge.
//!
//! - [`block`] holds the ranks of the tiles, [`constants`] the size of the
//!   board and the directions.
//! - [`game_board`] holds the board with its queries and its move, [`spawn`]
//!   the choice of an empty cell for a new tile, [`random`] the random numbers
//!   that this choice draws.
//! - [`lane`] and [`grid`] say what a move makes of one row or column and of
//!   the whole board. The contracts of the board are stated over them.
//! - [`lane_laws`], [`laws`] and [`tally`] prove what holds of every lane and
//!   of every board under a move.
//! - [`render`] says how a board is written out as text.
//! - [`movement`], [`watcher`] and [`materials`] serve a program that shows
//!   the game: they turn the arrow keys into moves, tell where each tile goes
//!   and what has to change on screen after a move, and hold the colours.

pub mod block;
pub mod constants;
pub mod game_board;
pub mod grid;
pub mod lane;
pub mod lane_laws;
pub mod laws;
pub mod materials;
pub mod movement;
mod patch;
pub mod random;
pub mod render;
pub mod spawn;
pub mod tally;
pub mod watcher;
