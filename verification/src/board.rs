use vstd::prelude::*;
use crate::card::{Card, Direction, dir_at};

verus! {

pub const BOARD_SIZE: usize = 4;

#[derive(Clone, Copy, Debug, PartialEq, Eq, Structural)]
pub enum Owner {
    Blue,
    Red,
}

#[derive(Clone, Copy, Debug, PartialEq, Eq, Structural)]
pub enum Cell {
    Empty,
    Blocked,
    Occupied { card: Card, owner: Owner },
}

/// The 4×4 board, indexed `cells[row][col]`.
#[derive(Clone, Copy, Debug)]
pub struct Board {
    pub cells: [[Cell; BOARD_SIZE]; BOARD_SIZE],
}

/// The board as a mathematical grid: rows of cells.
pub type Grid = Seq<Seq<Cell>>;

impl View for Board {
    type V = Grid;

    open spec fn view(&self) -> Grid {
        Seq::new(4, |r: int| self.cells[r]@)
    }
}

pub open spec fn in_bounds(r: int, c: int) -> bool {
    0 <= r < 4 && 0 <= c < 4
}

/// A grid of the board's shape.
pub open spec fn well_shaped(g: Grid) -> bool {
    &&& g.len() == 4
    &&& forall|r: int| 0 <= r < 4 ==> #[trigger] g[r].len() == 4
}

pub open spec fn put(g: Grid, r: int, c: int, x: Cell) -> Grid {
    g.update(r, g[r].update(c, x))
}

pub open spec fn empty_grid() -> Grid {
    Seq::new(4, |r: int| Seq::new(4, |c: int| Cell::Empty))
}

/// A board position `(row, col)`.
pub type Pos = (usize, usize);

/// A battle: the card at the first position attacks the card at the second.
pub type Battle = (Pos, Pos);

pub open spec fn pos_in_bounds(p: Pos) -> bool {
    p.0 < 4 && p.1 < 4
}

/// The cell of the grid at a position.
pub open spec fn at(g: Grid, p: Pos) -> Cell {
    g[p.0 as int][p.1 as int]
}

/// The index of a position in row-major order.
pub open spec fn flat(p: Pos) -> int {
    p.0 * 4 + p.1
}

/// The position one step from `p` in direction `d`, when it lies on the board.
pub open spec fn neighbour(p: Pos, d: Direction) -> Option<Pos> {
    let r = p.0 + d.row_step();
    let c = p.1 + d.col_step();
    if in_bounds(r, c) {
        Some((r as usize, c as usize))
    } else {
        None
    }
}

/// The battles that a card placed at `p` by `owner` opens towards direction `d`:
/// against an adjacent card of the other owner, the placed card attacks when it
/// points at it, and the adjacent card attacks back when it points at `p`.
pub open spec fn opening_battles_toward(g: Grid, p: Pos, card: Card, owner: Owner, d: Direction) -> Seq<Battle> {
    match neighbour(p, d) {
        Some(q) => match at(g, q) {
            Cell::Occupied { card: adj, owner: adj_owner } => if adj_owner != owner {
                (if card.points(d) { seq![(p, q)] } else { Seq::empty() })
                    + (if adj.points(d.reversed()) { seq![(q, p)] } else { Seq::empty() })
            } else {
                Seq::empty()
            },
            _ => Seq::empty(),
        },
        None => Seq::empty(),
    }
}

/// The opening battles towards the first `k` directions of `Direction::ALL`, in order.
pub open spec fn opening_battles(g: Grid, p: Pos, card: Card, owner: Owner, k: nat) -> Seq<Battle>
    decreases k,
{
    if k == 0 {
        Seq::empty()
    } else {
        opening_battles(g, p, card, owner, (k - 1) as nat)
            + opening_battles_toward(g, p, card, owner, dir_at(k - 1))
    }
}

/// The battle that a card just flipped to `owner` at `p` starts towards `d`:
/// it attacks an adjacent card of another owner that it points at.
pub open spec fn chain_battles_toward(g: Grid, p: Pos, card: Card, owner: Owner, d: Direction) -> Seq<Battle> {
    match neighbour(p, d) {
        Some(q) => if card.points(d) && (at(g, q) matches Cell::Occupied { owner: o, .. } && o != owner) {
            seq![(p, q)]
        } else {
            Seq::empty()
        },
        None => Seq::empty(),
    }
}

/// The chain battles towards the first `k` directions of `Direction::ALL`, in order.
pub open spec fn chain_battles(g: Grid, p: Pos, card: Card, owner: Owner, k: nat) -> Seq<Battle>
    decreases k,
{
    if k == 0 {
        Seq::empty()
    } else {
        chain_battles(g, p, card, owner, (k - 1) as nat)
            + chain_battles_toward(g, p, card, owner, dir_at(k - 1))
    }
}

/// The number of positions not yet flipped.
pub open spec fn unflipped(f: Seq<bool>) -> nat
    decreases f.len(),
{
    if f.len() == 0 {
        0
    } else {
        unflipped(f.drop_last()) + if f.last() { 0nat } else { 1nat }
    }
}

pub proof fn lemma_unflipped_set(f: Seq<bool>, j: int)
    requires
        0 <= j < f.len(),
        !f[j],
    ensures
        unflipped(f.update(j, true)) + 1 == unflipped(f),
    decreases f.len(),
{
    if j == f.len() - 1 {
        assert(f.update(j, true).drop_last() =~= f.drop_last());
    } else {
        lemma_unflipped_set(f.drop_last(), j);
        assert(f.update(j, true).drop_last() =~= f.drop_last().update(j, true));
    }
}

/// Resolves the battle queue `q` from entry `i` on, in order. A battle is fought
/// when both positions hold cards of different owners; when the attacker wins
/// and the defender has not been flipped yet in this placement, the defender
/// changes to the attacker's owner and its own arrows queue further battles.
/// `f` marks (row-major) the positions flipped so far.
pub open spec fn resolve(g: Grid, q: Seq<Battle>, i: nat, f: Seq<bool>) -> Grid
    decreases unflipped(f), q.len() - i,
{
    if i >= q.len() {
        g
    } else {
        let a = q[i as int].0;
        let d = q[i as int].1;
        if pos_in_bounds(a) && pos_in_bounds(d) && f.len() == 16 {
            match (at(g, a), at(g, d)) {
                (
                    Cell::Occupied { card: acard, owner: aowner },
                    Cell::Occupied { card: dcard, owner: downer },
                ) => if aowner != downer && acard.beats(dcard) && !f[flat(d)] {
                    let g2 = put(g, d.0 as int, d.1 as int, Cell::Occupied { card: dcard, owner: aowner });
                    proof {
                        lemma_unflipped_set(f, flat(d));
                    }
                    resolve(g2, q + chain_battles(g2, d, dcard, aowner, 8), i + 1, f.update(flat(d), true))
                } else {
                    resolve(g, q, i + 1, f)
                },
                _ => resolve(g, q, i + 1, f),
            }
        } else {
            resolve(g, q, i + 1, f)
        }
    }
}

/// Every battle of the queue is between two positions of the board.
pub open spec fn battles_in_bounds(q: Seq<Battle>) -> bool {
    forall|j: int| 0 <= j < q.len() ==> pos_in_bounds(#[trigger] q[j].0) && pos_in_bounds(q[j].1)
}

pub proof fn lemma_concat_in_bounds(a: Seq<Battle>, b: Seq<Battle>)
    requires
        battles_in_bounds(a),
        battles_in_bounds(b),
    ensures
        battles_in_bounds(a + b),
{
    assert forall|j: int| 0 <= j < (a + b).len() implies pos_in_bounds(#[trigger] (a + b)[j].0) && pos_in_bounds((a + b)[j].1) by {
        if j < a.len() {
            assert((a + b)[j] == a[j]);
            assert(pos_in_bounds(a[j].0));
        } else {
            assert((a + b)[j] == b[j - a.len()]);
            assert(pos_in_bounds(b[j - a.len()].0));
        }
    }
}

pub proof fn lemma_opening_in_bounds(g: Grid, p: Pos, card: Card, owner: Owner, k: nat)
    requires
        pos_in_bounds(p),
    ensures
        battles_in_bounds(opening_battles(g, p, card, owner, k)),
    decreases k,
{
    if k > 0 {
        lemma_opening_in_bounds(g, p, card, owner, (k - 1) as nat);
        lemma_concat_in_bounds(
            opening_battles(g, p, card, owner, (k - 1) as nat),
            opening_battles_toward(g, p, card, owner, dir_at(k - 1)),
        );
    }
}

pub proof fn lemma_chain_in_bounds(g: Grid, p: Pos, card: Card, owner: Owner, k: nat)
    requires
        pos_in_bounds(p),
    ensures
        battles_in_bounds(chain_battles(g, p, card, owner, k)),
    decreases k,
{
    if k > 0 {
        lemma_chain_in_bounds(g, p, card, owner, (k - 1) as nat);
        lemma_concat_in_bounds(
            chain_battles(g, p, card, owner, (k - 1) as nat),
            chain_battles_toward(g, p, card, owner, dir_at(k - 1)),
        );
    }
}

/// The grid after `owner` places `card` on the empty position `p` and every
/// battle, counterattack and chain has been resolved.
pub open spec fn placed(g: Grid, p: Pos, card: Card, owner: Owner) -> Grid {
    let g1 = put(g, p.0 as int, p.1 as int, Cell::Occupied { card, owner });
    resolve(g1, opening_battles(g1, p, card, owner, 8), 0, Seq::new(16, |i: int| false))
}

/// The position with row-major index `k`.
pub open spec fn pos_of(k: int) -> Pos {
    ((k / 4) as usize, (k % 4) as usize)
}

/// Whether the cell is a card of the given owner.
pub open spec fn owned_by(x: Cell, o: Owner) -> bool {
    x matches Cell::Occupied { owner, .. } && owner == o
}

/// The number of cards of owner `o` among the first `n` positions in row-major order.
pub open spec fn owned_upto(g: Grid, o: Owner, n: nat) -> nat
    decreases n,
{
    if n == 0 {
        0
    } else {
        owned_upto(g, o, (n - 1) as nat) + if owned_by(at(g, pos_of(n - 1)), o) { 1nat } else { 0nat }
    }
}

/// The number of cards of owner `o` on the board.
pub open spec fn count_owned(g: Grid, o: Owner) -> nat {
    owned_upto(g, o, 16)
}

/// The empty positions among the first `n` in row-major order, in that order.
pub open spec fn empties_upto(g: Grid, n: nat) -> Seq<Pos>
    decreases n,
{
    if n == 0 {
        Seq::empty()
    } else {
        empties_upto(g, (n - 1) as nat) + if at(g, pos_of(n - 1)) is Empty {
            seq![pos_of(n - 1)]
        } else {
            Seq::empty()
        }
    }
}

/// The empty positions of the board in row-major order.
pub open spec fn empty_positions(g: Grid) -> Seq<Pos> {
    empties_upto(g, 16)
}

/// Why a card could not be placed.
#[derive(Clone, Copy, Debug, PartialEq, Eq, Structural)]
pub enum PlaceError {
    /// The target cell is blocked or already holds a card.
    CellNotEmpty { row: usize, col: usize },
}

impl Board {
    pub fn new() -> (b: Self)
        ensures
            b@ == empty_grid(),
    {
        let b = Self { cells: [[Cell::Empty; BOARD_SIZE]; BOARD_SIZE] };
        assert(b@ =~= empty_grid()) by {
            assert forall|r: int| 0 <= r < 4 implies #[trigger] b@[r] =~= empty_grid()[r] by {}
        }
        b
    }

    pub fn cell(&self, row: usize, col: usize) -> (c: Cell)
        requires
            row < BOARD_SIZE,
            col < BOARD_SIZE,
        ensures
            c == self@[row as int][col as int],
    {
        self.cells[row][col]
    }

    pub fn set(&mut self, row: usize, col: usize, cell: Cell)
        requires
            row < BOARD_SIZE,
            col < BOARD_SIZE,
        ensures
            final(self)@ == put(old(self)@, row as int, col as int, cell),
    {
        self.cells[row][col] = cell;
        assert(self@ =~= put(old(self)@, row as int, col as int, cell));
    }

    /// The battles opened by the card just placed at `p`, in direction order.
    fn opening_queue(&self, p: Pos, card: Card, owner: Owner) -> (queue: Vec<Battle>)
        requires
            pos_in_bounds(p),
        ensures
            queue@ == opening_battles(self@, p, card, owner, 8),
    {
        let mut queue: Vec<Battle> = Vec::new();
        let mut k: usize = 0;
        while k < 8
            invariant
                k <= 8,
                pos_in_bounds(p),
                queue@ == opening_battles(self@, p, card, owner, k as nat),
            decreases 8 - k,
        {
            let dir = crate::card::direction_at(k);
            let (dr, dc) = dir.delta();
            let nr = p.0 as i32 + dr;
            let nc = p.1 as i32 + dc;
            if 0 <= nr && nr < 4 && 0 <= nc && nc < 4 {
                let q: Pos = (nr as usize, nc as usize);
                assert(neighbour(p, dir) == Some(q));
                match self.cells[nr as usize][nc as usize] {
                    Cell::Occupied { card: adj, owner: adj_owner } => {
                        if adj_owner != owner {
                            // The placed card attacks the adjacent one if it points at it.
                            if card.has_arrow(dir) {
                                queue.push((p, q));
                            }
                            // The adjacent card attacks back if it points at the placed one.
                            if adj.has_arrow(dir.opposite()) {
                                queue.push((q, p));
                            }
                        }
                    },
                    _ => {},
                }
            } else {
                assert(neighbour(p, dir) is None);
            }
            assert(queue@ =~= opening_battles(self@, p, card, owner, (k + 1) as nat));
            k = k + 1;
        }
        queue
    }

    /// Queues the battles started by the card just flipped to `owner` at `p`.
    fn push_chain_battles(&self, queue: &mut Vec<Battle>, p: Pos, card: Card, owner: Owner)
        requires
            pos_in_bounds(p),
        ensures
            final(queue)@ == old(queue)@ + chain_battles(self@, p, card, owner, 8),
    {
        let ghost q0 = queue@;
        let mut k: usize = 0;
        while k < 8
            invariant
                k <= 8,
                pos_in_bounds(p),
                queue@ == q0 + chain_battles(self@, p, card, owner, k as nat),
            decreases 8 - k,
        {
            let dir = crate::card::direction_at(k);
            if card.has_arrow(dir) {
                let (dr, dc) = dir.delta();
                let nr = p.0 as i32 + dr;
                let nc = p.1 as i32 + dc;
                if 0 <= nr && nr < 4 && 0 <= nc && nc < 4 {
                    let q: Pos = (nr as usize, nc as usize);
                    assert(neighbour(p, dir) == Some(q));
                    match self.cells[nr as usize][nc as usize] {
                        Cell::Occupied { owner: target_owner, .. } => {
                            if target_owner != owner {
                                queue.push((p, q));
                            }
                        },
                        _ => {},
                    }
                } else {
                    assert(neighbour(p, dir) is None);
                }
            }
            assert(queue@ =~= q0 + chain_battles(self@, p, card, owner, (k + 1) as nat));
            k = k + 1;
        }
    }

    /// The number of cards that `owner` holds on the board.
    pub fn count(&self, owner: Owner) -> (n: usize)
        ensures
            n == count_owned(self@, owner),
    {
        let mut n: usize = 0;
        let mut r: usize = 0;
        while r < BOARD_SIZE
            invariant
                r <= 4,
                n == owned_upto(self@, owner, (r * 4) as nat),
                n <= r * 4,
            decreases 4 - r,
        {
            let mut c: usize = 0;
            while c < BOARD_SIZE
                invariant
                    r < 4,
                    c <= 4,
                    n == owned_upto(self@, owner, (r * 4 + c) as nat),
                    n <= r * 4 + c,
                decreases 4 - c,
            {
                assert(pos_of(r * 4 + c) == (r, c));
                match self.cells[r][c] {
                    Cell::Occupied { owner: o, .. } => {
                        if o == owner {
                            n = n + 1;
                        }
                    },
                    _ => {},
                }
                c = c + 1;
            }
            r = r + 1;
        }
        n
    }

    /// The empty cells in row-major order.
    pub fn empty_cells(&self) -> (out: Vec<Pos>)
        ensures
            out@ == empty_positions(self@),
    {
        let mut out: Vec<Pos> = Vec::new();
        let mut r: usize = 0;
        while r < BOARD_SIZE
            invariant
                r <= 4,
                out@ == empties_upto(self@, (r * 4) as nat),
            decreases 4 - r,
        {
            let mut c: usize = 0;
            while c < BOARD_SIZE
                invariant
                    r < 4,
                    c <= 4,
                    out@ == empties_upto(self@, (r * 4 + c) as nat),
                decreases 4 - c,
            {
                assert(pos_of(r * 4 + c) == (r, c));
                match self.cells[r][c] {
                    Cell::Empty => {
                        out.push((r, c));
                    },
                    _ => {},
                }
                c = c + 1;
            }
            r = r + 1;
        }
        out
    }

    /// Place a card at (row, col) and resolve all battles (including counterattacks) and chains.
    pub fn place(&mut self, row: usize, col: usize, card: Card, owner: Owner) -> (r: Result<(), PlaceError>)
        requires
            row < BOARD_SIZE,
            col < BOARD_SIZE,
        ensures
            !(old(self)@[row as int][col as int] is Empty) ==> r == Err::<(), PlaceError>(
                PlaceError::CellNotEmpty { row, col },
            ) && final(self)@ == old(self)@,
            old(self)@[row as int][col as int] is Empty ==> r is Ok && final(self)@ == placed(
                old(self)@,
                (row, col),
                card,
                owner,
            ),
    {
        match self.cells[row][col] {
            Cell::Empty => {},
            _ => {
                return Err(PlaceError::CellNotEmpty { row, col });
            },
        }
        let ghost g0 = self@;
        self.set(row, col, Cell::Occupied { card, owner });
        let mut queue = self.opening_queue((row, col), card, owner);
        proof {
            lemma_opening_in_bounds(self@, (row, col), card, owner, 8);
        }

        // Resolve battles; chains append new entries to the queue.
        let mut flipped = [false; 16];
        assert(flipped@ =~= Seq::new(16, |i: int| false));
        let mut i: usize = 0;
        while i < queue.len()
            invariant
                i <= queue@.len(),
                flipped@.len() == 16,
                battles_in_bounds(queue@),
                resolve(self@, queue@, i as nat, flipped@) == placed(g0, (row, col), card, owner),
            decreases unflipped(flipped@), queue@.len() - i,
        {
            let ghost fi = flipped@;
            let battle = queue[i];
            let a = battle.0;
            let d = battle.1;
            assert(pos_in_bounds(a) && pos_in_bounds(d));
            i = i + 1;
            match self.cells[a.0][a.1] {
                Cell::Occupied { card: acard, owner: aowner } => {
                    match self.cells[d.0][d.1] {
                        Cell::Occupied { card: dcard, owner: downer } => {
                            if aowner != downer && acard.wins_against(dcard) && !flipped[d.0 * 4 + d.1] {
                                proof {
                                    lemma_unflipped_set(fi, flat(d));
                                }
                                flipped[d.0 * 4 + d.1] = true;
                                self.set(d.0, d.1, Cell::Occupied { card: dcard, owner: aowner });
                                let ghost q_before = queue@;
                                self.push_chain_battles(&mut queue, d, dcard, aowner);
                                proof {
                                    lemma_chain_in_bounds(self@, d, dcard, aowner, 8);
                                    lemma_concat_in_bounds(q_before, chain_battles(self@, d, dcard, aowner, 8));
                                }
                            }
                        },
                        _ => {},
                    }
                },
                _ => {},
            }
        }
        Ok(())
    }
}


/// Two cells hold the same thing up to the owner of a card: both empty, both
/// blocked, or both the same card.
pub open spec fn same_layout_cell(x: Cell, y: Cell) -> bool {
    x == y || (x matches Cell::Occupied { card: c1, .. } && y matches Cell::Occupied { card: c2, .. } && c1 == c2)
}

/// Two grids differ at most in the owners of their cards.
pub open spec fn same_layout(g: Grid, h: Grid) -> bool {
    &&& well_shaped(g)
    &&& well_shaped(h)
    &&& forall|r: int, c: int| in_bounds(r, c) ==> same_layout_cell(#[trigger] g[r][c], h[r][c])
}

/// The number of cards, of either owner, among the first `n` positions in
/// row-major order.
pub open spec fn occupied_upto(g: Grid, n: nat) -> nat
    decreases n,
{
    if n == 0 {
        0
    } else {
        occupied_upto(g, (n - 1) as nat) + if at(g, pos_of(n - 1)) is Occupied { 1nat } else { 0nat }
    }
}

proof fn lemma_same_layout_trans(g: Grid, h: Grid, k: Grid)
    requires
        same_layout(g, h),
        same_layout(h, k),
    ensures
        same_layout(g, k),
{
    assert forall|r: int, c: int| in_bounds(r, c) implies same_layout_cell(#[trigger] g[r][c], k[r][c]) by {
        assert(same_layout_cell(g[r][c], h[r][c]));
        assert(same_layout_cell(h[r][c], k[r][c]));
    }
}

proof fn lemma_flip_same_layout(g: Grid, d: Pos, card: Card, o: Owner)
    requires
        well_shaped(g),
        pos_in_bounds(d),
        at(g, d) matches Cell::Occupied { card: c, .. } && c == card,
    ensures
        same_layout(g, put(g, d.0 as int, d.1 as int, Cell::Occupied { card, owner: o })),
{
    let h = put(g, d.0 as int, d.1 as int, Cell::Occupied { card, owner: o });
    assert forall|r: int, c: int| in_bounds(r, c) implies same_layout_cell(#[trigger] g[r][c], h[r][c]) by {
        if r == d.0 && c == d.1 {
        } else {
            assert(h[r][c] == g[r][c]);
        }
    }
}

proof fn lemma_same_layout_refl(g: Grid)
    requires
        well_shaped(g),
    ensures
        same_layout(g, g),
{
}

/// Resolving battles changes owners of cards and nothing else.
proof fn lemma_resolve_same_layout(g: Grid, q: Seq<Battle>, i: nat, f: Seq<bool>)
    requires
        well_shaped(g),
    ensures
        same_layout(g, resolve(g, q, i, f)),
    decreases unflipped(f), q.len() - i,
{
    if i >= q.len() {
        lemma_same_layout_refl(g);
    } else {
        let a = q[i as int].0;
        let d = q[i as int].1;
        if pos_in_bounds(a) && pos_in_bounds(d) && f.len() == 16 {
            match (at(g, a), at(g, d)) {
                (
                    Cell::Occupied { card: acard, owner: aowner },
                    Cell::Occupied { card: dcard, owner: downer },
                ) => if aowner != downer && acard.beats(dcard) && !f[flat(d)] {
                    let g2 = put(g, d.0 as int, d.1 as int, Cell::Occupied { card: dcard, owner: aowner });
                    lemma_unflipped_set(f, flat(d));
                    lemma_flip_same_layout(g, d, dcard, aowner);
                    lemma_resolve_same_layout(g2, q + chain_battles(g2, d, dcard, aowner, 8), i + 1, f.update(flat(d), true));
                    lemma_same_layout_trans(g, g2, resolve(g2, q + chain_battles(g2, d, dcard, aowner, 8), i + 1, f.update(flat(d), true)));
                } else {
                    lemma_resolve_same_layout(g, q, i + 1, f);
                },
                _ => lemma_resolve_same_layout(g, q, i + 1, f),
            }
        } else {
            lemma_resolve_same_layout(g, q, i + 1, f);
        }
    }
}

proof fn lemma_occupied_same_layout(g: Grid, h: Grid, n: nat)
    requires
        same_layout(g, h),
        n <= 16,
    ensures
        occupied_upto(g, n) == occupied_upto(h, n),
    decreases n,
{
    if n > 0 {
        lemma_occupied_same_layout(g, h, (n - 1) as nat);
        let p = pos_of(n - 1);
        assert(same_layout_cell(g[p.0 as int][p.1 as int], h[p.0 as int][p.1 as int]));
    }
}

proof fn lemma_occupied_put(g: Grid, p: Pos, x: Cell, n: nat)
    requires
        well_shaped(g),
        pos_in_bounds(p),
        at(g, p) is Empty,
        x is Occupied,
        n <= 16,
    ensures
        occupied_upto(put(g, p.0 as int, p.1 as int, x), n) == occupied_upto(g, n) + if flat(p) < n { 1nat } else { 0nat },
    decreases n,
{
    if n > 0 {
        lemma_occupied_put(g, p, x, (n - 1) as nat);
        let q = pos_of(n - 1);
        if q != p {
            assert(put(g, p.0 as int, p.1 as int, x)[q.0 as int][q.1 as int] == g[q.0 as int][q.1 as int]);
        }
    }
}

proof fn lemma_owned_split(g: Grid, n: nat)
    ensures
        owned_upto(g, Owner::Blue, n) + owned_upto(g, Owner::Red, n) == occupied_upto(g, n),
    decreases n,
{
    if n > 0 {
        lemma_owned_split(g, (n - 1) as nat);
    }
}

/// The board of a `Board` always has four rows of four cells.
pub proof fn lemma_board_well_shaped(b: Board)
    ensures
        well_shaped(b@),
{
}

/// Placing a card on an empty cell puts that card there and changes nothing
/// else on the board but the owners of cards: empty and blocked cells stay as
/// they were, and every card stays where it was.
pub proof fn lemma_place_changes_only_owners(g: Grid, p: Pos, card: Card, owner: Owner)
    requires
        well_shaped(g),
        pos_in_bounds(p),
        at(g, p) is Empty,
    ensures
        at(placed(g, p, card, owner), p) matches Cell::Occupied { card: c, .. } && c == card,
        forall|r: int, c: int|
            in_bounds(r, c) && (r, c) != (p.0 as int, p.1 as int) ==> same_layout_cell(
                #[trigger] g[r][c],
                placed(g, p, card, owner)[r][c],
            ),
        well_shaped(placed(g, p, card, owner)),
{
    let g1 = put(g, p.0 as int, p.1 as int, Cell::Occupied { card, owner });
    let h = placed(g, p, card, owner);
    lemma_resolve_same_layout(g1, opening_battles(g1, p, card, owner, 8), 0, Seq::new(16, |i: int| false));
    assert(same_layout_cell(g1[p.0 as int][p.1 as int], h[p.0 as int][p.1 as int]));
    assert forall|r: int, c: int|
        in_bounds(r, c) && (r, c) != (p.0 as int, p.1 as int) implies same_layout_cell(#[trigger] g[r][c], h[r][c]) by {
        assert(g1[r][c] == g[r][c]);
        assert(same_layout_cell(g1[r][c], h[r][c]));
    }
}

/// Placing a card adds exactly one card to the board: the cards of both
/// owners together number one more than before.
pub proof fn lemma_place_adds_one_card(g: Grid, p: Pos, card: Card, owner: Owner)
    requires
        well_shaped(g),
        pos_in_bounds(p),
        at(g, p) is Empty,
    ensures
        count_owned(placed(g, p, card, owner), Owner::Blue) + count_owned(placed(g, p, card, owner), Owner::Red)
            == count_owned(g, Owner::Blue) + count_owned(g, Owner::Red) + 1,
{
    let x = Cell::Occupied { card, owner };
    let g1 = put(g, p.0 as int, p.1 as int, x);
    let h = placed(g, p, card, owner);
    lemma_resolve_same_layout(g1, opening_battles(g1, p, card, owner, 8), 0, Seq::new(16, |i: int| false));
    lemma_occupied_same_layout(g1, h, 16);
    lemma_occupied_put(g, p, x, 16);
    lemma_owned_split(g, 16);
    lemma_owned_split(h, 16);
}

/// A position is listed by `empty_positions` exactly when it is on the board
/// and its cell is empty; the list is strictly increasing in row-major order,
/// so it holds no position twice.
pub proof fn lemma_empty_positions(g: Grid)
    ensures
        forall|p: Pos| empty_positions(g).contains(p) <==> pos_in_bounds(p) && at(g, p) is Empty,
        forall|i: int, j: int|
            0 <= i < j < empty_positions(g).len() ==> flat(#[trigger] empty_positions(g)[i]) < flat(
                #[trigger] empty_positions(g)[j],
            ),
        empty_positions(g).no_duplicates(),
{
    lemma_empties_upto(g, 16);
}

pub(crate) proof fn lemma_pos_of(k: int)
    requires
        0 <= k < 16,
    ensures
        pos_in_bounds(pos_of(k)),
        flat(pos_of(k)) == k,
        forall|p: Pos| pos_in_bounds(p) && flat(p) == k ==> p == pos_of(k),
{
}

proof fn lemma_empties_upto(g: Grid, n: nat)
    requires
        n <= 16,
    ensures
        forall|p: Pos| empties_upto(g, n).contains(p) <==> pos_in_bounds(p) && flat(p) < n && at(g, p) is Empty,
        forall|i: int| 0 <= i < empties_upto(g, n).len() ==> flat(#[trigger] empties_upto(g, n)[i]) < n,
        forall|i: int, j: int|
            0 <= i < j < empties_upto(g, n).len() ==> flat(#[trigger] empties_upto(g, n)[i]) < flat(
                #[trigger] empties_upto(g, n)[j],
            ),
        empties_upto(g, n).no_duplicates(),
    decreases n,
{
    if n > 0 {
        lemma_empties_upto(g, (n - 1) as nat);
        let prev = empties_upto(g, (n - 1) as nat);
        let last = pos_of(n - 1);
        lemma_pos_of(n - 1);
        let tail: Seq<Pos> = if at(g, last) is Empty { seq![last] } else { Seq::empty() };
        assert forall|p: Pos| empties_upto(g, n).contains(p) <==> pos_in_bounds(p) && flat(p) < n && at(g, p) is Empty by {
            if empties_upto(g, n).contains(p) {
                let j = choose|j: int| 0 <= j < empties_upto(g, n).len() && empties_upto(g, n)[j] == p;
                if j < prev.len() {
                    assert(prev[j] == p);
                    assert(prev.contains(p));
                } else {
                    assert(tail[j - prev.len()] == p);
                }
            }
            if pos_in_bounds(p) && flat(p) < n && at(g, p) is Empty {
                if flat(p) < n - 1 {
                    assert(prev.contains(p));
                    let j = choose|j: int| 0 <= j < prev.len() && prev[j] == p;
                    assert(empties_upto(g, n)[j] == p);
                } else {
                    assert(p == last);
                    assert(empties_upto(g, n)[prev.len() as int] == p);
                }
            }
        }
        assert forall|i: int, j: int|
            0 <= i < j < empties_upto(g, n).len() implies flat(#[trigger] empties_upto(g, n)[i]) < flat(
                #[trigger] empties_upto(g, n)[j],
            ) by {
            let s = empties_upto(g, n);
            if j < prev.len() {
                assert(s[i] == prev[i] && s[j] == prev[j]);
                assert(flat(prev[i]) < flat(prev[j]));
            } else {
                assert(at(g, last) is Empty);
                assert(j == prev.len());
                assert(s[i] == prev[i]);
                assert(prev.contains(s[i]));
                assert(s[j] == last);
                assert(flat(prev[i]) < n - 1);
            }
        }
        assert forall|i: int| 0 <= i < empties_upto(g, n).len() implies flat(#[trigger] empties_upto(g, n)[i]) < n by {
            if i < prev.len() {
                assert(empties_upto(g, n)[i] == prev[i]);
            }
        }
        assert forall|i: int, j: int|
            0 <= i < empties_upto(g, n).len() && 0 <= j < empties_upto(g, n).len() && i != j
            implies empties_upto(g, n)[i] != empties_upto(g, n)[j] by {
            let s = empties_upto(g, n);
            if i < prev.len() && j < prev.len() {
            } else if i >= prev.len() && j >= prev.len() {
            } else if i < prev.len() {
                assert(s[i] == prev[i]);
                assert(prev.contains(s[i]));
                assert(flat(s[i]) < n - 1);
            } else {
                assert(s[j] == prev[j]);
                assert(prev.contains(s[j]));
                assert(flat(s[j]) < n - 1);
            }
        }
    }
}

proof fn lemma_occupied_at_most(g: Grid, n: nat)
    ensures
        occupied_upto(g, n) <= n,
    decreases n,
{
    if n > 0 {
        lemma_occupied_at_most(g, (n - 1) as nat);
    }
}

/// The board holds at most sixteen cards in all.
pub proof fn lemma_counts_bounded(g: Grid)
    ensures
        count_owned(g, Owner::Blue) + count_owned(g, Owner::Red) <= 16,
{
    lemma_owned_split(g, 16);
    lemma_occupied_at_most(g, 16);
}

/// The number of blocked cells among the first `n` positions in row-major order.
pub open spec fn blocked_upto(g: Grid, n: nat) -> nat
    decreases n,
{
    if n == 0 {
        0
    } else {
        blocked_upto(g, (n - 1) as nat) + if at(g, pos_of(n - 1)) is Blocked { 1nat } else { 0nat }
    }
}

/// The number of blocked cells on the board.
pub open spec fn blocked_count(g: Grid) -> nat {
    blocked_upto(g, 16)
}

/// The cells of the board that hold a card of owner `o`.
pub open spec fn owned_cells(g: Grid, o: Owner) -> Set<Pos> {
    Set::new(|p: Pos| pos_in_bounds(p) && owned_by(at(g, p), o))
}

/// The cells among the first `n` in row-major order that hold a card of owner `o`.
pub open spec fn owned_cells_upto(g: Grid, o: Owner, n: nat) -> Set<Pos> {
    Set::new(|p: Pos| pos_in_bounds(p) && flat(p) < n && owned_by(at(g, p), o))
}

proof fn lemma_owned_cells_upto(g: Grid, o: Owner, n: nat)
    requires
        n <= 16,
    ensures
        owned_cells_upto(g, o, n).finite(),
        owned_cells_upto(g, o, n).len() == owned_upto(g, o, n),
    decreases n,
{
    if n == 0 {
        assert(owned_cells_upto(g, o, 0) =~= Set::empty());
    } else {
        lemma_owned_cells_upto(g, o, (n - 1) as nat);
        lemma_pos_of(n - 1);
        let prev = owned_cells_upto(g, o, (n - 1) as nat);
        let last = pos_of(n - 1);
        assert(!prev.contains(last));
        if owned_by(at(g, last), o) {
            assert(owned_cells_upto(g, o, n) =~= prev.insert(last));
        } else {
            assert(owned_cells_upto(g, o, n) =~= prev);
        }
    }
}

/// `count` counts the cells of the board that hold a card of the owner.
pub proof fn lemma_count_is_owned_cells(g: Grid, o: Owner)
    ensures
        owned_cells(g, o).finite(),
        count_owned(g, o) == owned_cells(g, o).len(),
{
    lemma_owned_cells_upto(g, o, 16);
    assert(owned_cells_upto(g, o, 16) =~= owned_cells(g, o));
}

proof fn lemma_cells_add_up_upto(g: Grid, n: nat)
    ensures
        owned_upto(g, Owner::Blue, n) + owned_upto(g, Owner::Red, n) + empties_upto(g, n).len() + blocked_upto(g, n)
            == n,
    decreases n,
{
    if n > 0 {
        lemma_cells_add_up_upto(g, (n - 1) as nat);
    }
}

/// Every cell is empty, blocked or a card of one of the two players: Blue's
/// cards, Red's cards, the empty cells and the blocked cells add up to the
/// sixteen cells of the board.
pub proof fn lemma_cells_add_up(g: Grid)
    ensures
        count_owned(g, Owner::Blue) + count_owned(g, Owner::Red) + empty_positions(g).len() + blocked_count(g) == 16,
{
    lemma_cells_add_up_upto(g, 16);
}

} // verus!
