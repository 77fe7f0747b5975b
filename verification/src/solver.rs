use std::time::{Duration, Instant};
use vstd::prelude::*;
use crate::board::{
    Board, Grid, Owner, Pos, at, count_owned, empty_positions, lemma_counts_bounded, lemma_empty_positions,
    placed, pos_in_bounds, well_shaped,
};
use crate::capture::{lemma_place_without_counterattack, no_counterattack};
use crate::card::{Card, CardType};

verus! {

/// `std::time::Instant`, a reading of the monotonic clock; opaque here.
#[verifier::external_type_specification]
#[verifier::external_body]
pub struct ExInstant(Instant);

/// `Instant::now()`: the current reading of the monotonic clock. It depends on
/// the time of the call, so nothing is stated of it.
#[verifier::external_body]
fn clock_now() -> Instant {
    Instant::now()
}

/// `Instant::checked_add`: the instant `budget` after `start`, or `None` when
/// the clock cannot represent it. Nothing is stated of the instant.
#[verifier::external_body]
fn clock_add(start: Instant, budget: Duration) -> Option<Instant> {
    start.checked_add(budget)
}

/// `Instant >= Instant` (`PartialOrd::ge`): whether `a` is not earlier than `b`.
/// Instants are opaque here, so nothing is stated of the answer.
#[verifier::external_body]
fn clock_not_before(a: &Instant, b: &Instant) -> bool {
    *a >= *b
}

/// A recommended placement: the hand card at `card_index` on (`row`, `col`),
/// with the search score it reached.
#[derive(Clone, Copy, Debug)]
pub struct Move {
    pub card_index: usize,
    pub row: usize,
    pub col: usize,
    pub score: i32,
}

/// The depth of the first search, which always runs to the end.
pub const MIN_DEPTH: u32 = 3;

/// The deepest search: one placement per board cell.
pub const MAX_DEPTH: u32 = 16;

/// The default time budget of the search, in seconds.
pub const DEFAULT_TIME_BUDGET_SECS: u64 = 2;

/// The representative opponent card used to model Red's responses: all
/// arrows, moderate stats.
pub open spec fn red_proxy_card() -> Card {
    Card { attack: 2, card_type: CardType::Physical, phys_def: 2, mag_def: 2, arrows: 0xFF }
}

fn red_proxy() -> (c: Card)
    ensures
        c == red_proxy_card(),
{
    Card { attack: 2, card_type: CardType::Physical, phys_def: 2, mag_def: 2, arrows: 0xFF }
}

/// The evaluation of a board: Blue's cards minus Red's cards.
pub open spec fn score(g: Grid) -> int {
    count_owned(g, Owner::Blue) - count_owned(g, Owner::Red)
}

/// The hand left when the card at `ci` is played: the last card takes its slot.
pub open spec fn sub_hand(h: Seq<Card>, ci: int) -> Seq<Card> {
    h.update(ci, h.last()).drop_last()
}

pub open spec fn max_int(a: int, b: int) -> int {
    if a >= b { a } else { b }
}

pub open spec fn min_int(a: int, b: int) -> int {
    if a <= b { a } else { b }
}

/// The minimax value of a position searched `d` plies deep. Blue plays the
/// cards of hand `h` on the empty cells and maximises; Red plays the proxy
/// card and minimises; a Blue turn with an empty hand passes. A board without
/// empty cells, or depth 0, is scored by `score`.
pub open spec fn value(g: Grid, h: Seq<Card>, d: nat, blue: bool) -> int
    decreases d, 2nat, 0nat, 0nat,
{
    if d == 0 || empty_positions(g).len() == 0 {
        score(g)
    } else if blue {
        if h.len() == 0 {
            value(g, h, (d - 1) as nat, false)
        } else {
            blue_upto(g, h, d, h.len(), 0)
        }
    } else {
        red_upto(g, h, d, empty_positions(g).len())
    }
}

/// The value after Blue plays card `ci` of `h` on the `j`-th empty cell.
pub open spec fn blue_child(g: Grid, h: Seq<Card>, d: nat, ci: int, j: int) -> int
    decreases d, 0nat, 0nat, 0nat,
{
    if d > 0 {
        value(placed(g, empty_positions(g)[j], h[ci], Owner::Blue), sub_hand(h, ci), (d - 1) as nat, false)
    } else {
        0
    }
}

/// The largest value of the Blue moves before (card `ci`, cell `j`) in the
/// order cards first, then empty cells; `i32::MIN` when there is none.
pub open spec fn blue_upto(g: Grid, h: Seq<Card>, d: nat, ci: nat, j: nat) -> int
    decreases d, 1nat, ci, j,
{
    if j == 0 {
        if ci == 0 {
            i32::MIN as int
        } else {
            blue_upto(g, h, d, (ci - 1) as nat, empty_positions(g).len())
        }
    } else if ci < h.len() && j <= empty_positions(g).len() && d > 0 {
        max_int(blue_upto(g, h, d, ci, (j - 1) as nat), blue_child(g, h, d, ci as int, j - 1))
    } else {
        i32::MIN as int
    }
}

/// The value after Red plays the proxy card on the `j`-th empty cell.
pub open spec fn red_child(g: Grid, h: Seq<Card>, d: nat, j: int) -> int
    decreases d, 0nat, 0nat, 0nat,
{
    if d > 0 {
        value(placed(g, empty_positions(g)[j], red_proxy_card(), Owner::Red), h, (d - 1) as nat, true)
    } else {
        0
    }
}

/// The smallest value of the Red moves on the first `j` empty cells;
/// `i32::MAX` when there is none.
pub open spec fn red_upto(g: Grid, h: Seq<Card>, d: nat, j: nat) -> int
    decreases d, 1nat, 0nat, j,
{
    if j == 0 {
        i32::MAX as int
    } else if j <= empty_positions(g).len() && d > 0 {
        min_int(red_upto(g, h, d, (j - 1) as nat), red_child(g, h, d, j - 1))
    } else {
        i32::MAX as int
    }
}

/// What a fail-soft alpha-beta search promises of its result `r` for a
/// position of minimax value `v`, searched with window (`alpha`, `beta`):
/// inside the window it is exact; at or below `alpha` it bounds `v` from
/// above; at or above `beta` it bounds `v` from below.
pub open spec fn alphabeta_bound(r: int, v: int, alpha: int, beta: int) -> bool {
    &&& r <= alpha ==> v <= r
    &&& r >= beta ==> v >= r
    &&& alpha < r < beta ==> r == v
}

/// The relation a maximising node keeps between the best result so far and
/// the true maximum `m` of the moves searched so far, for window (`alpha`, `beta`).
pub open spec fn blue_window(best: int, m: int, alpha: int, beta: int) -> bool {
    &&& best <= alpha ==> m <= best
    &&& alpha < best < beta ==> m == best
    &&& best >= beta ==> m >= best
}

/// The relation a minimising node keeps between the best result so far and
/// the true minimum `m` of the moves searched so far, for window (`alpha`, `beta`).
pub open spec fn red_window(best: int, m: int, alpha: int, beta: int) -> bool {
    &&& best >= beta ==> m >= best
    &&& alpha < best < beta ==> m == best
    &&& best <= alpha ==> m <= best
}

/// Blue's running maximum only grows along the move order.
proof fn lemma_blue_upto_grows(g: Grid, h: Seq<Card>, d: nat, ci: nat, j: nat)
    requires
        d > 0,
        ci < h.len(),
        j <= empty_positions(g).len(),
    ensures
        blue_upto(g, h, d, ci, j) <= blue_upto(g, h, d, h.len(), 0),
    decreases h.len() - ci, empty_positions(g).len() - j,
{
    let e = empty_positions(g).len();
    if j < e {
        lemma_blue_upto_grows(g, h, d, ci, j + 1);
    } else if ci + 1 < h.len() {
        assert(blue_upto(g, h, d, ci + 1, 0) == blue_upto(g, h, d, ci, e));
        lemma_blue_upto_grows(g, h, d, ci + 1, 0);
    } else {
        assert(blue_upto(g, h, d, ci + 1, 0) == blue_upto(g, h, d, ci, e));
    }
}

/// Red's running minimum only shrinks along the move order.
proof fn lemma_red_upto_shrinks(g: Grid, h: Seq<Card>, d: nat, j: nat)
    requires
        d > 0,
        j <= empty_positions(g).len(),
    ensures
        red_upto(g, h, d, j) >= red_upto(g, h, d, empty_positions(g).len()),
    decreases empty_positions(g).len() - j,
{
    if j < empty_positions(g).len() {
        lemma_red_upto_shrinks(g, h, d, j + 1);
    }
}

/// Blue's count minus Red's count.
fn evaluate(board: &Board) -> (r: i32)
    ensures
        r == score(board@),
        -16 <= r <= 16,
{
    proof {
        lemma_counts_bounded(board@);
    }
    let blue = board.count(Owner::Blue);
    let red = board.count(Owner::Red);
    blue as i32 - red as i32
}

fn swap_cards(hand: &mut Vec<Card>, i: usize, j: usize)
    requires
        i < old(hand)@.len(),
        j < old(hand)@.len(),
    ensures
        final(hand)@ == old(hand)@.update(i as int, old(hand)@[j as int]).update(j as int, old(hand)@[i as int]),
{
    let a = hand[i];
    let b = hand[j];
    hand.set(i, b);
    hand.set(j, a);
}

/// Whether the clock has reached the deadline, if there is one.
fn out_of_time(deadline: Option<Instant>) -> (r: bool)
    ensures
        deadline is None ==> !r,
{
    match deadline {
        Some(d) => {
            let now = clock_now();
            clock_not_before(&now, &d)
        },
        None => false,
    }
}

/// Alpha-beta minimax over the first `len` cards of `hand`. The hand is
/// permuted during the search and restored before returning, and the score
/// is a board evaluation, within -16..=16, whatever the window. The second
/// result tells whether the deadline passed during the search; when it did
/// not and the window (`alpha`, `beta`) is not empty, the score obeys
/// `alphabeta_bound` for the minimax `value`. When the deadline passed, the
/// search stops at once and the score is the board's evaluation where it
/// stood. Without a deadline the search always finishes.
pub fn minimax(
    board: &Board,
    hand: &mut Vec<Card>,
    len: usize,
    depth: u32,
    blue_turn: bool,
    alpha: i32,
    beta: i32,
    deadline: Option<Instant>,
) -> (r: (i32, bool))
    requires
        len <= old(hand)@.len(),
    ensures
        final(hand)@ == old(hand)@,
        -16 <= r.0 <= 16,
        deadline is None ==> !r.1,
        !r.1 && alpha < beta ==> alphabeta_bound(
            r.0 as int,
            value(board@, old(hand)@.take(len as int), depth as nat, blue_turn),
            alpha as int,
            beta as int,
        ),
    decreases depth,
{
    let ghost g = board@;
    let ghost h = hand@.take(len as int);
    let ghost hand0 = hand@;
    let ghost d = depth as nat;
    let empty = board.empty_cells();
    proof {
        lemma_empty_positions(g);
    }
    if depth == 0 || empty.len() == 0 {
        return (evaluate(board), false);
    }
    if blue_turn {
        if len == 0 {
            assert(h.len() == 0);
            return minimax(board, hand, len, depth - 1, false, alpha, beta, deadline);
        }
        let last = len - 1;
        let mut a = alpha;
        let mut best = i32::MIN;
        let mut cut = false;
        let mut ci: usize = 0;
        while ci < len && !cut
            invariant
                hand@ == hand0,
                hand0 == old(hand)@,
                h == hand0.take(len as int),
                1 <= len <= hand0.len(),
                last == len - 1,
                d == depth as nat,
                d >= 1,
                g == board@,
                empty@ == empty_positions(g),
                empty@.len() >= 1,
                forall|p: Pos| #[trigger] empty_positions(g).contains(p) <==> pos_in_bounds(p) && at(g, p) is Empty,
                ci <= len,
                a == (if best > alpha { best } else { alpha }),
                best == i32::MIN || -16 <= best <= 16,
                ci > 0 || cut ==> -16 <= best <= 16,
                alpha < beta && !cut ==> a < beta,
                alpha < beta && !cut ==> blue_window(best as int, blue_upto(g, h, d, ci as nat, 0), alpha as int, beta as int),
                alpha < beta && cut ==> best >= beta && value(g, h, d, true) >= best,
            decreases len - ci,
        {
            let card = hand[ci];
            let mut j: usize = 0;
            while j < empty.len() && !cut
                invariant
                    hand@ == hand0,
                    hand0 == old(hand)@,
                    h == hand0.take(len as int),
                    1 <= len <= hand0.len(),
                    last == len - 1,
                    d == depth as nat,
                    d >= 1,
                    g == board@,
                    empty@ == empty_positions(g),
                    empty@.len() >= 1,
                    forall|p: Pos| #[trigger] empty_positions(g).contains(p) <==> pos_in_bounds(p) && at(g, p) is Empty,
                    ci < len,
                    card == h[ci as int],
                    j <= empty@.len(),
                        a == (if best > alpha { best } else { alpha }),
                    best == i32::MIN || -16 <= best <= 16,
                    ci > 0 || j > 0 || cut ==> -16 <= best <= 16,
                    alpha < beta && !cut ==> a < beta,
                    alpha < beta && !cut ==> blue_window(best as int, blue_upto(g, h, d, ci as nat, j as nat), alpha as int, beta as int),
                    alpha < beta && cut ==> best >= beta && value(g, h, d, true) >= best,
                decreases empty@.len() - j,
            {
                if out_of_time(deadline) {
                    return (evaluate(board), true);
                }
                let (row, col) = empty[j];
                assert(empty_positions(g).contains(empty@[j as int]));
                assert(pos_in_bounds(empty@[j as int]) && at(g, empty@[j as int]) is Empty);
                let mut sim = *board;
                let placement = sim.place(row, col, card, Owner::Blue);
                if placement.is_ok() {
                    let ghost child = sim@;
                    assert(child == placed(g, empty_positions(g)[j as int], h[ci as int], Owner::Blue));
                    swap_cards(hand, ci, last);
                    assert(hand@.take(last as int) =~= sub_hand(h, ci as int));
                    let (score, timed_out) = minimax(&sim, hand, last, depth - 1, false, a, beta, deadline);
                    swap_cards(hand, ci, last);
                    assert(hand@ =~= hand0);
                    if timed_out {
                        return (score, true);
                    }
                    proof {
                        assert(blue_upto(g, h, d, ci as nat, (j + 1) as nat) == max_int(
                            blue_upto(g, h, d, ci as nat, j as nat),
                            blue_child(g, h, d, ci as int, j as int),
                        ));
                    }
                    if score > best {
                        best = score;
                    }
                    if score > a {
                        a = score;
                    }
                    if beta <= a {
                        cut = true;
                        proof {
                            lemma_blue_upto_grows(g, h, d, ci as nat, (j + 1) as nat);
                        }
                    }
                }
                j = j + 1;
            }
            proof {
                if !cut {
                    assert(blue_upto(g, h, d, (ci + 1) as nat, 0) == blue_upto(g, h, d, ci as nat, empty@.len() as nat));
                }
            }
            ci = ci + 1;
        }
        (best, false)
    } else {
        let proxy = red_proxy();
        let mut b = beta;
        let mut best = i32::MAX;
        let mut cut = false;
        let mut j: usize = 0;
        while j < empty.len() && !cut
            invariant
                hand@ == hand0,
                hand0 == old(hand)@,
                h == hand0.take(len as int),
                len <= hand0.len(),
                d == depth as nat,
                d >= 1,
                g == board@,
                proxy == red_proxy_card(),
                empty@ == empty_positions(g),
                empty@.len() >= 1,
                forall|p: Pos| #[trigger] empty_positions(g).contains(p) <==> pos_in_bounds(p) && at(g, p) is Empty,
                j <= empty@.len(),
                b == (if best < beta { best } else { beta }),
                best == i32::MAX || -16 <= best <= 16,
                j > 0 || cut ==> -16 <= best <= 16,
                alpha < beta && !cut ==> alpha < b,
                alpha < beta && !cut ==> red_window(best as int, red_upto(g, h, d, j as nat), alpha as int, beta as int),
                alpha < beta && cut ==> best <= alpha && value(g, h, d, false) <= best,
            decreases empty@.len() - j,
        {
            if out_of_time(deadline) {
                return (evaluate(board), true);
            }
            let (row, col) = empty[j];
            assert(empty_positions(g).contains(empty@[j as int]));
                assert(pos_in_bounds(empty@[j as int]) && at(g, empty@[j as int]) is Empty);
            let mut sim = *board;
            let placement = sim.place(row, col, proxy, Owner::Red);
            if placement.is_ok() {
                let (score, timed_out) = minimax(&sim, hand, len, depth - 1, true, alpha, b, deadline);
                if timed_out {
                    return (score, true);
                }
                proof {
                    assert(red_upto(g, h, d, (j + 1) as nat) == min_int(
                        red_upto(g, h, d, j as nat),
                        red_child(g, h, d, j as int),
                    ));
                }
                if score < best {
                    best = score;
                }
                if score < b {
                    b = score;
                }
                if b <= alpha {
                    cut = true;
                    proof {
                        lemma_red_upto_shrinks(g, h, d, (j + 1) as nat);
                    }
                }
            }
            j = j + 1;
        }
        (best, false)
    }
}

/// A move that plays a card of the hand on an empty cell of the board.
pub open spec fn legal_move(g: Grid, h: Seq<Card>, m: Move) -> bool {
    &&& m.card_index < h.len()
    &&& empty_positions(g).contains((m.row, m.col))
}

/// (card `ci1`, cell `j1`) comes before (card `ci2`, cell `j2`) in the search
/// order: cards first, then empty cells.
pub open spec fn before(ci1: int, j1: int, ci2: int, j2: int) -> bool {
    ci1 < ci2 || (ci1 == ci2 && j1 < j2)
}

/// `m` is Blue's first best move, in search order, with card `m.card_index`
/// on the `j`-th empty cell: its score is the minimax value of the move, no
/// move has a greater value and every earlier move has a smaller one.
pub open spec fn first_best_at(g: Grid, h: Seq<Card>, d: nat, m: Move, j: int) -> bool {
    let es = empty_positions(g);
    &&& m.card_index < h.len()
    &&& 0 <= j < es.len()
    &&& es[j] == (m.row, m.col)
    &&& m.score == blue_child(g, h, d, m.card_index as int, j)
    &&& forall|ci: int, k: int|
        0 <= ci < h.len() && 0 <= k < es.len() ==> #[trigger] blue_child(g, h, d, ci, k) <= m.score
    &&& forall|ci: int, k: int|
        0 <= ci < h.len() && 0 <= k < es.len() && before(ci, k, m.card_index as int, j)
            ==> #[trigger] blue_child(g, h, d, ci, k) < m.score
}

/// The result of a full search `d` plies deep: Blue's first best move.
pub open spec fn is_best_at_depth(g: Grid, h: Seq<Card>, d: nat, m: Move) -> bool {
    exists|j: int| first_best_at(g, h, d, m, j)
}

/// `m`, played with card `m.card_index` on the `j`-th empty cell, is the
/// first best of the moves searched before (card `ci`, cell `k`).
pub open spec fn prefix_best_at(g: Grid, h: Seq<Card>, d: nat, m: Move, j: int, ci: int, k: int) -> bool {
    let es = empty_positions(g);
    &&& m.card_index < h.len()
    &&& 0 <= j < es.len()
    &&& es[j] == (m.row, m.col)
    &&& before(m.card_index as int, j, ci, k)
    &&& m.score == blue_child(g, h, d, m.card_index as int, j)
    &&& forall|ci2: int, k2: int|
        0 <= ci2 < h.len() && 0 <= k2 < es.len() && before(ci2, k2, ci, k)
            ==> #[trigger] blue_child(g, h, d, ci2, k2) <= m.score
    &&& forall|ci2: int, k2: int|
        0 <= ci2 < h.len() && 0 <= k2 < es.len() && before(ci2, k2, m.card_index as int, j)
            ==> #[trigger] blue_child(g, h, d, ci2, k2) < m.score
}

/// Run a full search at a given depth. Returns `None` if the deadline passes.
/// Pass `None` for the deadline to run without time checks. A move, when
/// there is one, is Blue's first best move at that depth; on a board with an
/// empty cell, `None` comes only from a deadline.
pub fn search_at_depth(board: &Board, hand: &[Card], depth: u32, deadline: Option<Instant>) -> (r: Option<Move>)
    requires
        depth >= 1 || empty_positions(board@).len() == 0,
        hand@.len() >= 1,
    ensures
        r matches Some(m) ==> legal_move(board@, hand@, m) && -16 <= m.score <= 16,
        r matches Some(m) ==> is_best_at_depth(board@, hand@, depth as nat, m),
        r is Some ==> empty_positions(board@).len() > 0,
        deadline is None ==> (r is Some <==> empty_positions(board@).len() > 0),
{
    let ghost g = board@;
    let ghost h = hand@;
    let ghost d = depth as nat;
    let empty = board.empty_cells();
    proof {
        lemma_empty_positions(g);
    }
    let mut working: Vec<Card> = Vec::new();
    let mut k: usize = 0;
    while k < hand.len()
        invariant
            k <= hand@.len(),
            working@ == hand@.take(k as int),
        decreases hand@.len() - k,
    {
        working.push(hand[k]);
        k = k + 1;
        assert(working@ =~= hand@.take(k as int));
    }
    assert(working@ =~= h);
    let last = working.len() - 1;
    let mut best: Option<Move> = None;
    let mut best_score = i32::MIN;
    let ghost mut best_j: int = 0;
    let mut ci: usize = 0;
    while ci < working.len()
        invariant
            working@ == h,
            h == hand@,
            g == board@,
            d == depth as nat,
            d >= 1 || empty_positions(g).len() == 0,
            last + 1 == h.len(),
            empty@ == empty_positions(g),
            forall|p: Pos| #[trigger] empty_positions(g).contains(p) <==> pos_in_bounds(p) && at(g, p) is Empty,
            ci <= h.len(),
            best is None <==> (ci == 0 || empty@.len() == 0),
            best is None ==> best_score == i32::MIN,
            best matches Some(m) ==> m.score == best_score && legal_move(g, h, m) && -16 <= m.score <= 16,
            (best matches Some(m) ==> prefix_best_at(g, h, d, m, best_j, ci as int, 0)),
        decreases h.len() - ci,
    {
        let card = working[ci];
        let mut j: usize = 0;
        while j < empty.len()
            invariant
                working@ == h,
                h == hand@,
                g == board@,
                d == depth as nat,
                d >= 1 || empty_positions(g).len() == 0,
                last + 1 == h.len(),
                empty@ == empty_positions(g),
                forall|p: Pos| #[trigger] empty_positions(g).contains(p) <==> pos_in_bounds(p) && at(g, p) is Empty,
                ci < h.len(),
                card == h[ci as int],
                j <= empty@.len(),
                best is None <==> (ci == 0 && j == 0 || empty@.len() == 0),
                best is None ==> best_score == i32::MIN,
                best matches Some(m) ==> m.score == best_score && legal_move(g, h, m) && -16 <= m.score <= 16,
                (best matches Some(m) ==> prefix_best_at(g, h, d, m, best_j, ci as int, j as int)),
            decreases empty@.len() - j,
        {
            if out_of_time(deadline) {
                return None;
            }
            let (row, col) = empty[j];
            assert(empty_positions(g).contains(empty@[j as int]));
            assert(pos_in_bounds(empty@[j as int]) && at(g, empty@[j as int]) is Empty);
            let mut sim = *board;
            let placement = sim.place(row, col, card, Owner::Blue);
            if placement.is_ok() {
                swap_cards(&mut working, ci, last);
                assert(working@.take(last as int) =~= sub_hand(h, ci as int));
                let (score, timed_out) = minimax(&sim, &mut working, last, depth - 1, false, i32::MIN, i32::MAX, deadline);
                swap_cards(&mut working, ci, last);
                assert(working@ =~= h);
                if timed_out {
                    return None;
                }
                let ghost cv = blue_child(g, h, d, ci as int, j as int);
                assert(score == cv);
                if score > best_score {
                    let ghost old_best = best;
                    best_score = score;
                    let m = Move { card_index: ci, row, col, score };
                    best = Some(m);
                    let ghost old_j = best_j;
                    proof {
                        best_j = j as int;
                        assert(prefix_best_at(g, h, d, m, j as int, ci as int, (j + 1) as int)) by {
                            if old_best is Some {
                                let om = old_best->0;
                                let jm = old_j;
                                assert forall|ci2: int, k2: int|
                                    0 <= ci2 < h.len() && 0 <= k2 < empty@.len() && before(ci2, k2, ci as int, (j + 1) as int)
                                    implies #[trigger] blue_child(g, h, d, ci2, k2) <= m.score by {
                                    if ci2 == ci && k2 == j {
                                    } else {
                                        assert(before(ci2, k2, ci as int, j as int));
                                    }
                                }
                                assert forall|ci2: int, k2: int|
                                    0 <= ci2 < h.len() && 0 <= k2 < empty@.len() && before(ci2, k2, ci as int, j as int)
                                    implies #[trigger] blue_child(g, h, d, ci2, k2) < m.score by {
                                }
                            } else {
                                assert forall|ci2: int, k2: int|
                                    0 <= ci2 < h.len() && 0 <= k2 < empty@.len() && before(ci2, k2, ci as int, (j + 1) as int)
                                    implies #[trigger] blue_child(g, h, d, ci2, k2) <= m.score by {
                                    assert(ci2 == ci && k2 == j);
                                }
                            }
                        }
                    }
                } else {
                    proof {
                        let om = best->0;
                        let jm = best_j;
                        assert(prefix_best_at(g, h, d, om, jm, ci as int, (j + 1) as int)) by {
                            assert forall|ci2: int, k2: int|
                                0 <= ci2 < h.len() && 0 <= k2 < empty@.len() && before(ci2, k2, ci as int, (j + 1) as int)
                                implies #[trigger] blue_child(g, h, d, ci2, k2) <= om.score by {
                                if ci2 == ci && k2 == j {
                                } else {
                                    assert(before(ci2, k2, ci as int, j as int));
                                }
                            }
                        }
                    }
                }
            }
            j = j + 1;
        }
        proof {
            if best is Some {
                let om = best->0;
                let jm = best_j;
                assert(prefix_best_at(g, h, d, om, jm, (ci + 1) as int, 0)) by {
                    assert forall|ci2: int, k2: int|
                        0 <= ci2 < h.len() && 0 <= k2 < empty@.len() && before(ci2, k2, (ci + 1) as int, 0)
                        implies #[trigger] blue_child(g, h, d, ci2, k2) <= om.score by {
                        assert(before(ci2, k2, ci as int, j as int));
                    }
                }
            }
        }
        ci = ci + 1;
    }
    proof {
        if best is Some {
            let om = best->0;
            let jm = best_j;
            assert(first_best_at(g, h, d, om, jm)) by {
                assert forall|ci2: int, k2: int|
                    0 <= ci2 < h.len() && 0 <= k2 < empty@.len()
                    implies #[trigger] blue_child(g, h, d, ci2, k2) <= om.score by {
                    assert(before(ci2, k2, ci as int, 0));
                }
            }
        }
    }
    best
}

/// Blue passes when its hand is empty: on a board with an empty cell, the
/// value of Blue's turn is the value of Red's turn on the same board, one
/// ply shallower, so Red keeps playing.
pub proof fn lemma_empty_hand_passes(g: Grid, h: Seq<Card>, d: nat)
    requires
        h.len() == 0,
        d > 0,
        empty_positions(g).len() > 0,
    ensures
        value(g, h, d, true) == value(g, h, (d - 1) as nat, false),
{
}

/// The largest value of Blue's moves is no more than `s` when no single move
/// is worth more than `s`.
proof fn lemma_blue_upto_at_most(g: Grid, h: Seq<Card>, d: nat, ci: nat, j: nat, s: int)
    requires
        d > 0,
        s >= i32::MIN,
        forall|ci2: int, k2: int|
            0 <= ci2 < h.len() && 0 <= k2 < empty_positions(g).len() ==> #[trigger] blue_child(g, h, d, ci2, k2) <= s,
    ensures
        blue_upto(g, h, d, ci, j) <= s,
    decreases ci, j,
{
    if j == 0 {
        if ci > 0 {
            lemma_blue_upto_at_most(g, h, d, (ci - 1) as nat, empty_positions(g).len(), s);
        }
    } else if ci < h.len() && j <= empty_positions(g).len() {
        assert(blue_child(g, h, d, ci as int, j - 1) <= s);
        lemma_blue_upto_at_most(g, h, d, ci, (j - 1) as nat, s);
    }
}

/// Every Blue move searched before (card `ci`, cell `j`) counts towards the
/// running maximum there.
proof fn lemma_blue_upto_at_least(g: Grid, h: Seq<Card>, d: nat, ci: nat, j: nat, ci0: int, j0: int)
    requires
        d > 0,
        0 <= ci0 < h.len(),
        0 <= j0 < empty_positions(g).len(),
        before(ci0, j0, ci as int, j as int),
        ci <= h.len(),
        ci < h.len() || j == 0,
        j <= empty_positions(g).len(),
    ensures
        blue_upto(g, h, d, ci, j) >= blue_child(g, h, d, ci0, j0),
    decreases ci, j,
{
    if j == 0 {
        lemma_blue_upto_at_least(g, h, d, (ci - 1) as nat, empty_positions(g).len(), ci0, j0);
    } else if !(ci0 == ci && j0 == j - 1) {
        lemma_blue_upto_at_least(g, h, d, ci, (j - 1) as nat, ci0, j0);
    }
}

/// The score of Blue's first best move is the minimax value of the position.
pub proof fn lemma_best_score_is_value(g: Grid, h: Seq<Card>, d: nat, m: Move)
    requires
        d > 0,
        is_best_at_depth(g, h, d, m),
    ensures
        m.score == value(g, h, d, true),
{
    let j = choose|j: int| first_best_at(g, h, d, m, j);
    lemma_blue_upto_at_most(g, h, d, h.len(), 0, m.score as int);
    lemma_blue_upto_at_least(g, h, d, h.len(), 0, m.card_index as int, j);
}

/// Playing card `ci` leaves the other cards of the hand: the hand loses one
/// card, that one, and keeps all the others.
pub proof fn lemma_sub_hand_plays_one_card(h: Seq<Card>, ci: int)
    requires
        0 <= ci < h.len(),
    ensures
        sub_hand(h, ci).len() == h.len() - 1,
        sub_hand(h, ci).to_multiset() =~= h.to_multiset().remove(h[ci]),
{
    broadcast use vstd::multiset::group_multiset_axioms;

    let l = h.last();
    let u = h.update(ci, l);
    let rest = u.drop_last();
    assert(u =~= rest.push(l));
    vstd::seq_lib::to_multiset_build(rest, l);
    vstd::seq_lib::to_multiset_update(h, ci, l);
    assert(rest.to_multiset().insert(l) =~= h.to_multiset().insert(l).remove(h[ci]));
    assert forall|x: Card| #[trigger] rest.to_multiset().count(x) == h.to_multiset().remove(h[ci]).count(x) by {
        assert(rest.to_multiset().insert(l).count(x) == h.to_multiset().insert(l).remove(h[ci]).count(x));
    }
}

/// The running maximum of Blue's moves, once a move has been seen, is the
/// value of one of the moves seen, when no move is worth `i32::MIN`.
proof fn lemma_blue_upto_attained(g: Grid, h: Seq<Card>, d: nat, ci: nat, j: nat)
    requires
        d > 0,
        ci < h.len(),
        0 < j <= empty_positions(g).len(),
        forall|c: int, k: int|
            0 <= c < h.len() && 0 <= k < empty_positions(g).len() ==> #[trigger] blue_child(g, h, d, c, k) > i32::MIN,
    ensures
        exists|c0: int, j0: int|
            0 <= c0 < h.len() && 0 <= j0 < empty_positions(g).len() && #[trigger] blue_child(g, h, d, c0, j0)
                == blue_upto(g, h, d, ci, j),
    decreases ci, j,
{
    let e = empty_positions(g).len();
    let prev = blue_upto(g, h, d, ci, (j - 1) as nat);
    let here = blue_child(g, h, d, ci as int, j - 1);
    if here >= prev {
        assert(blue_child(g, h, d, ci as int, j - 1) == blue_upto(g, h, d, ci, j));
    } else if j > 1 {
        lemma_blue_upto_attained(g, h, d, ci, (j - 1) as nat);
    } else if ci > 0 {
        assert(prev == blue_upto(g, h, d, (ci - 1) as nat, e));
        lemma_blue_upto_attained(g, h, d, (ci - 1) as nat, e);
    }
}

/// The running minimum of Red's moves, once a move has been seen, is the
/// value of one of them, when no move is worth `i32::MAX`.
proof fn lemma_red_upto_attained(g: Grid, h: Seq<Card>, d: nat, j: nat)
    requires
        d > 0,
        0 < j <= empty_positions(g).len(),
        forall|k: int| 0 <= k < empty_positions(g).len() ==> #[trigger] red_child(g, h, d, k) < i32::MAX,
    ensures
        exists|j0: int| 0 <= j0 < j && #[trigger] red_child(g, h, d, j0) == red_upto(g, h, d, j),
        forall|k: int| 0 <= k < j ==> red_upto(g, h, d, j) <= #[trigger] red_child(g, h, d, k),
    decreases j,
{
    assert(red_child(g, h, d, j - 1) < i32::MAX);
    if j > 1 {
        lemma_red_upto_attained(g, h, d, (j - 1) as nat);
        let j0 = choose|j0: int| 0 <= j0 < j - 1 && #[trigger] red_child(g, h, d, j0) == red_upto(g, h, d, (j - 1) as nat);
        if red_child(g, h, d, j - 1) < red_upto(g, h, d, (j - 1) as nat) {
            assert(red_child(g, h, d, j - 1) == red_upto(g, h, d, j));
        } else {
            assert(red_child(g, h, d, j0) == red_upto(g, h, d, j));
        }
    } else {
        assert(red_upto(g, h, d, 0) == i32::MAX);
        assert(red_child(g, h, d, 0) == red_upto(g, h, d, 1));
    }
}

/// One ply deep, Blue's value is the best board Blue can reach with one
/// card, and Red's value the worst board (for Blue) that Red's answer
/// reaches: no single placement scores better for Blue (worse, for Red),
/// and one placement scores exactly the value.
pub proof fn lemma_one_ply_values(g: Grid, h: Seq<Card>)
    requires
        h.len() > 0,
        empty_positions(g).len() > 0,
    ensures
        forall|ci: int, j: int|
            0 <= ci < h.len() && 0 <= j < empty_positions(g).len() ==> value(g, h, 1, true) >= #[trigger] score(
                placed(g, empty_positions(g)[j], h[ci], Owner::Blue),
            ),
        exists|ci: int, j: int|
            0 <= ci < h.len() && 0 <= j < empty_positions(g).len() && value(g, h, 1, true) == #[trigger] score(
                placed(g, empty_positions(g)[j], h[ci], Owner::Blue),
            ),
        forall|j: int|
            0 <= j < empty_positions(g).len() ==> value(g, h, 1, false) <= #[trigger] score(
                placed(g, empty_positions(g)[j], red_proxy_card(), Owner::Red),
            ),
        exists|j: int|
            0 <= j < empty_positions(g).len() && value(g, h, 1, false) == #[trigger] score(
                placed(g, empty_positions(g)[j], red_proxy_card(), Owner::Red),
            ),
{
    let e = empty_positions(g).len();
    assert forall|ci: int, j: int| 0 <= ci < h.len() && 0 <= j < e implies #[trigger] blue_child(g, h, 1, ci, j) == score(
        placed(g, empty_positions(g)[j], h[ci], Owner::Blue),
    ) && blue_child(g, h, 1, ci, j) > i32::MIN by {
        lemma_counts_bounded(placed(g, empty_positions(g)[j], h[ci], Owner::Blue));
    }
    assert forall|j: int| 0 <= j < e implies #[trigger] red_child(g, h, 1, j) == score(
        placed(g, empty_positions(g)[j], red_proxy_card(), Owner::Red),
    ) && red_child(g, h, 1, j) < i32::MAX by {
        lemma_counts_bounded(placed(g, empty_positions(g)[j], red_proxy_card(), Owner::Red));
    }
    assert forall|ci: int, j: int| 0 <= ci < h.len() && 0 <= j < e implies value(g, h, 1, true) >= #[trigger] score(
        placed(g, empty_positions(g)[j], h[ci], Owner::Blue),
    ) by {
        assert(blue_child(g, h, 1, ci, j) == score(placed(g, empty_positions(g)[j], h[ci], Owner::Blue)));
        lemma_blue_upto_at_least(g, h, 1, h.len(), 0, ci, j);
    }
    assert(blue_upto(g, h, 1, h.len(), 0) == blue_upto(g, h, 1, (h.len() - 1) as nat, e));
    lemma_blue_upto_attained(g, h, 1, (h.len() - 1) as nat, e);
    let (c0, j0) = choose|c0: int, j0: int|
        0 <= c0 < h.len() && 0 <= j0 < e && #[trigger] blue_child(g, h, 1, c0, j0) == blue_upto(g, h, 1, h.len(), 0);
    assert(blue_child(g, h, 1, c0, j0) == score(placed(g, empty_positions(g)[j0], h[c0], Owner::Blue)));
    lemma_red_upto_attained(g, h, 1, e);
    assert forall|j: int| 0 <= j < e implies value(g, h, 1, false) <= #[trigger] score(
        placed(g, empty_positions(g)[j], red_proxy_card(), Owner::Red),
    ) by {
        assert(red_child(g, h, 1, j) == score(placed(g, empty_positions(g)[j], red_proxy_card(), Owner::Red)));
    }
    let r0 = choose|r0: int| 0 <= r0 < e && #[trigger] red_child(g, h, 1, r0) == red_upto(g, h, 1, e);
    assert(red_child(g, h, 1, r0) == score(placed(g, empty_positions(g)[r0], red_proxy_card(), Owner::Red)));
}

/// The score counts for Blue: a Blue placement that meets no counterattack
/// raises it by at least one, and a Red one lowers it by at least one.
pub proof fn lemma_placements_move_the_score(g: Grid, p: Pos, card: Card, owner: Owner)
    requires
        well_shaped(g),
        pos_in_bounds(p),
        at(g, p) is Empty,
        no_counterattack(g, p, owner),
    ensures
        owner == Owner::Blue ==> score(placed(g, p, card, owner)) >= score(g) + 1,
        owner == Owner::Red ==> score(placed(g, p, card, owner)) <= score(g) - 1,
{
    lemma_place_without_counterattack(g, p, card, owner);
    let other = if owner == Owner::Blue { Owner::Red } else { Owner::Blue };
    assert(count_owned(placed(g, p, card, owner), other) <= count_owned(g, other));
}

/// Search every move of Blue `depth` plies deep, with no time limit, and
/// return Blue's first best move in search order (cards first, then empty
/// cells in row-major order). Its score is the minimax value of the position.
pub fn search_to_depth(board: &Board, hand: &[Card], depth: u32) -> (r: Option<Move>)
    requires
        depth >= 1 || empty_positions(board@).len() == 0,
    ensures
        r is Some <==> hand@.len() > 0 && empty_positions(board@).len() > 0,
        r matches Some(m) ==> legal_move(board@, hand@, m) && -16 <= m.score <= 16,
        r matches Some(m) ==> is_best_at_depth(board@, hand@, depth as nat, m),
        r matches Some(m) ==> m.score == value(board@, hand@, depth as nat, true),
{
    if hand.len() == 0 {
        return None;
    }
    let r = search_at_depth(board, hand, depth, None);
    proof {
        if let Some(m) = r {
            lemma_best_score_is_value(board@, hand@, depth as nat, m);
        }
    }
    r
}

/// Find the best move by iterative deepening within a time budget: the search
/// at `MIN_DEPTH` always runs to the end, then deeper searches run while time
/// is left, and the last search that finished gives the move.
///
/// There is a move exactly when the hand holds a card and the board an empty
/// cell; it plays a card of the hand on an empty cell, and it is Blue's first
/// best move of a finished search at some depth from `MIN_DEPTH` to
/// `MAX_DEPTH`, scored with the minimax value at that depth. Which depth
/// finished last depends on the clock.
pub fn best_move(board: &Board, hand: &[Card], time_budget: Duration) -> (r: Option<Move>)
    ensures
        r is Some <==> hand@.len() > 0 && empty_positions(board@).len() > 0,
        r matches Some(m) ==> legal_move(board@, hand@, m) && -16 <= m.score <= 16,
        r matches Some(m) ==> exists|d: nat|
            MIN_DEPTH <= d <= MAX_DEPTH && #[trigger] is_best_at_depth(board@, hand@, d, m) && m.score == value(
                board@,
                hand@,
                d,
                true,
            ),
{
    if hand.len() == 0 {
        return None;
    }
    let start = clock_now();
    // A budget that the clock cannot add leaves the search without a deadline.
    let deadline = clock_add(start, time_budget);
    let mut best: Option<Move> = None;
    let ghost mut best_depth: nat = 0;
    let mut depth: u32 = MIN_DEPTH;
    let mut stop = false;
    while depth <= MAX_DEPTH && !stop
        invariant
            MIN_DEPTH <= depth <= MAX_DEPTH + 1,
            hand@.len() > 0,
            depth == MIN_DEPTH ==> best is None && !stop,
            depth > MIN_DEPTH && !stop ==> best is Some,
            depth > MIN_DEPTH ==> (best is Some <==> empty_positions(board@).len() > 0),
            best matches Some(m) ==> legal_move(board@, hand@, m) && -16 <= m.score <= 16,
            best matches Some(m) ==> MIN_DEPTH <= best_depth <= MAX_DEPTH
                && is_best_at_depth(board@, hand@, best_depth, m),
        decreases MAX_DEPTH + 1 - depth,
    {
        // The first depth always runs fully, ignoring the time budget.
        let effective_deadline = if depth > MIN_DEPTH { deadline } else { None };
        match search_at_depth(board, hand, depth, effective_deadline) {
            Some(m) => {
                best = Some(m);
                proof {
                    best_depth = depth as nat;
                }
            },
            None => {
                // Timed out, or nothing to search: keep the previous result.
                stop = true;
            },
        }
        if !stop && depth > MIN_DEPTH && out_of_time(deadline) {
            stop = true;
        }
        depth = depth + 1;
    }
    proof {
        if let Some(m) = best {
            lemma_best_score_is_value(board@, hand@, best_depth, m);
            assert(is_best_at_depth(board@, hand@, best_depth, m));
        }
    }
    best
}

} // verus!
