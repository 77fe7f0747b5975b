use vstd::prelude::*;
use crate::board::{BOARD_SIZE, Board, Cell, Grid, Owner, at, pos_of};
use crate::card::Card;

verus! {

/// One move of a game as the history database records it: the card played,
/// where, the solver's score for it, and the board before the move.
pub struct MoveRecord {
    pub game_id: i64,
    pub move_num: i32,
    pub card: Card,
    pub row: usize,
    pub col: usize,
    pub score: i32,
    pub board: Board,
}

/// The cards among the first `n` positions in row-major order, each with
/// its owner.
pub open spec fn cards_upto(g: Grid, n: nat) -> Seq<(Card, Owner)>
    decreases n,
{
    if n == 0 {
        Seq::empty()
    } else {
        cards_upto(g, (n - 1) as nat) + match at(g, pos_of(n - 1)) {
            Cell::Occupied { card, owner } => seq![(card, owner)],
            _ => Seq::empty(),
        }
    }
}

/// The cards visible on the board, each with its owner, in row-major order.
pub open spec fn cards_on(g: Grid) -> Seq<(Card, Owner)> {
    cards_upto(g, 16)
}

/// The cards visible on the board, each with its owner, in row-major order:
/// what the history records as seen.
pub fn cards_seen(board: &Board) -> (out: Vec<(Card, Owner)>)
    ensures
        out@ == cards_on(board@),
{
    let mut out: Vec<(Card, Owner)> = Vec::new();
    let mut r: usize = 0;
    while r < BOARD_SIZE
        invariant
            r <= 4,
            out@ == cards_upto(board@, (r * 4) as nat),
        decreases 4 - r,
    {
        let mut c: usize = 0;
        while c < BOARD_SIZE
            invariant
                r < 4,
                c <= 4,
                out@ == cards_upto(board@, (r * 4 + c) as nat),
            decreases 4 - c,
        {
            assert(pos_of(r * 4 + c) == (r, c));
            match board.cells[r][c] {
                Cell::Occupied { card, owner } => {
                    out.push((card, owner));
                },
                _ => {},
            }
            assert(out@ =~= cards_upto(board@, (r * 4 + c + 1) as nat));
            c = c + 1;
        }
        r = r + 1;
    }
    out
}

} // verus!
