use vstd::prelude::*;

verus! {

/// Why the engine turned a request down. Every one of these leaves the
/// state it was asked to change as it was.
#[derive(Clone, Copy, Debug, PartialEq, Eq, Structural)]
pub enum Error {
    /// The coordinate is not on the board.
    OutOfBounds,
    /// The point already holds a stone.
    Occupied,
    /// The move is suicide or repeats an earlier position.
    IllegalMove,
    /// The board size is not between 1 and 19.
    InvalidSize,
    /// There is no move to take back.
    NothingToUndo,
    /// Fewer than two handicap stones were asked for.
    HandicapTooSmall,
    /// More handicap stones were asked for than the board can take.
    HandicapTooLarge,
    /// Handicap stones can only go on an empty board.
    BoardNotEmpty,
}

} // verus!
