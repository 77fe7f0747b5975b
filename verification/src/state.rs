use vstd::prelude::*;
use crate::board::Board;
use crate::card::Card;

verus! {

/// What is kept between two runs of the adviser: the board, the hand and the
/// cursor.
pub struct SaveState {
    pub board: Board,
    pub hand: Vec<Card>,
    pub cursor: (usize, usize),
}

} // verus!
