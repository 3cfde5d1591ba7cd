pub mod block;
pub mod board;
pub mod protocol;

use vstd::prelude::*;

verus! {

/// Number of columns on a board.
pub const BOARD_WIDTH: i64 = 10;

/// Number of rows on a board.
pub const BOARD_HEIGHT: i64 = 22;

} // verus!
