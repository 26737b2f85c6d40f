use vstd::prelude::*;

verus! {

/// Display name sent to the game server on connection.
pub const NAME: &'static str = "muscovite";

pub const WHITE: &'static str = "white";
pub const BLACK: &'static str = "black";

pub const DEFAULT_WHITE_PORT: u32 = 5800;
pub const DEFAULT_BLACK_PORT: u32 = 5801;

// Cell contents
/// A white soldier.
pub const W: u32 = 1;
/// A black soldier.
pub const B: u32 = 2;
/// The king (a white piece).
pub const K: u32 = 3;
/// An empty cell.
pub const E: u32 = 0;

// Cell types
/// A regular cell.
pub const R: u32 = 10;
/// A camp cell, where black soldiers start.
pub const C: u32 = 20;
/// The throne, the central cell.
pub const T: u32 = 30;
/// An escape cell on the edge of the board.
pub const F: u32 = 40;

} // verus!
