use std::time::{Duration, Instant};
use tetra_master::board::{Board, Cell, Owner};
use tetra_master::card::{ARROW_E, Card, CardType};
use tetra_master::solver::{DEFAULT_TIME_BUDGET_SECS, best_move, minimax, search_at_depth, search_to_depth};

fn default_budget() -> Duration {
    Duration::from_secs(DEFAULT_TIME_BUDGET_SECS)
}

fn strong_east() -> Card {
    Card::new(15, CardType::Physical, 15, 15, ARROW_E)
}

#[test]
fn no_move_with_empty_hand() {
    let board = Board::new();
    assert!(best_move(&board, &[], default_budget()).is_none());
}

#[test]
fn finds_a_move_on_empty_board() {
    let board = Board::new();
    let hand = vec![strong_east()];
    let m = best_move(&board, &hand, default_budget()).unwrap();
    assert!(m.row < 4 && m.col < 4);
    assert_eq!(m.card_index, 0);
}

#[test]
fn prefers_capturing_red_card() {
    let mut board = Board::new();
    board.set(0, 1, Cell::Occupied { card: Card::new(0, CardType::Physical, 0, 0, 0), owner: Owner::Red });
    let hand = vec![strong_east()];
    let m = best_move(&board, &hand, default_budget()).unwrap();
    assert_eq!((m.row, m.col), (0, 0), "solver should place at (0,0) to capture the red card");
}

#[test]
fn min_depth_completes_with_zero_budget() {
    let board = Board::new();
    let hand = vec![strong_east()];
    let m = best_move(&board, &hand, Duration::from_nanos(1)).unwrap();
    assert!(m.row < 4 && m.col < 4);
}

#[test]
fn longer_budget_still_returns_valid_move() {
    let board = Board::new();
    let hand = vec![strong_east()];
    let m = best_move(&board, &hand, Duration::from_secs(1)).unwrap();
    assert!(m.row < 4 && m.col < 4);
    assert_eq!(m.card_index, 0);
}

#[test]
fn result_consistent_across_budgets() {
    let mut board = Board::new();
    let filler = Card::new(1, CardType::Physical, 1, 1, 0);
    for r in 0..4 {
        for c in 0..4 {
            if (r, c) != (3, 2) && (r, c) != (3, 3) {
                let owner = if (r + c) % 2 == 0 { Owner::Blue } else { Owner::Red };
                board.set(r, c, Cell::Occupied { card: filler, owner });
            }
        }
    }
    let hand = vec![strong_east()];
    let short = best_move(&board, &hand, Duration::from_nanos(1)).unwrap();
    let long = best_move(&board, &hand, Duration::from_secs(5)).unwrap();
    assert_eq!(
        (short.row, short.col),
        (long.row, long.col),
        "small board should produce same result regardless of budget"
    );
}

#[test]
fn multiple_cards_in_hand() {
    let board = Board::new();
    let hand = vec![
        Card::new(1, CardType::Physical, 1, 1, ARROW_E),
        Card::new(15, CardType::Physical, 15, 15, ARROW_E),
        Card::new(5, CardType::Magic, 5, 5, ARROW_E),
    ];
    let m = best_move(&board, &hand, default_budget()).unwrap();
    assert!(m.card_index < 3);
    assert!(m.row < 4 && m.col < 4);
}

#[test]
fn no_move_on_a_full_board() {
    let mut board = Board::new();
    for r in 0..4 {
        for c in 0..4 {
            board.set(r, c, Cell::Blocked);
        }
    }
    assert!(best_move(&board, &[strong_east()], Duration::from_nanos(1)).is_none());
}

#[test]
fn last_cell_score_is_the_board_evaluation() {
    // One empty cell: the search places the card there and scores the board.
    let mut board = Board::new();
    for r in 0..4 {
        for c in 0..4 {
            if (r, c) != (0, 0) {
                board.set(r, c, Cell::Blocked);
            }
        }
    }
    board.set(0, 1, Cell::Occupied { card: Card::new(0, CardType::Physical, 0, 0, 0), owner: Owner::Red });
    board.set(1, 1, Cell::Occupied { card: Card::new(0, CardType::Physical, 0, 0, 0), owner: Owner::Red });
    let m = best_move(&board, &[strong_east()], Duration::from_nanos(1)).unwrap();
    assert_eq!((m.card_index, m.row, m.col), (0, 0, 0));
    // Blue captures (0,1); (1,1) stays Red: 2 - 1.
    assert_eq!(m.score, 1);
}

#[test]
fn picks_the_first_best_card() {
    // Two identical cards: the first one in the hand is chosen.
    let board = Board::new();
    let m = best_move(&board, &[strong_east(), strong_east()], Duration::from_nanos(1)).unwrap();
    assert_eq!(m.card_index, 0);
}

/// Plain minimax, without pruning, over the same moves as the search.
fn plain_value(board: &Board, hand: &[Card], depth: u32, blue: bool) -> i32 {
    let empty = board.empty_cells();
    if depth == 0 || empty.is_empty() {
        return board.count(Owner::Blue) as i32 - board.count(Owner::Red) as i32;
    }
    if blue {
        if hand.is_empty() {
            return plain_value(board, hand, depth - 1, false);
        }
        let mut best = i32::MIN;
        for ci in 0..hand.len() {
            for &(r, c) in &empty {
                best = best.max(child_value(board, hand, depth, ci, r, c));
            }
        }
        best
    } else {
        let proxy = Card::new(2, CardType::Physical, 2, 2, 0xFF);
        let mut best = i32::MAX;
        for &(r, c) in &empty {
            let mut sim = *board;
            sim.place(r, c, proxy, Owner::Red).unwrap();
            best = best.min(plain_value(&sim, hand, depth - 1, true));
        }
        best
    }
}

fn child_value(board: &Board, hand: &[Card], depth: u32, ci: usize, r: usize, c: usize) -> i32 {
    let mut sim = *board;
    sim.place(r, c, hand[ci], Owner::Blue).unwrap();
    let mut rest = hand.to_vec();
    let last = rest.len() - 1;
    rest.swap(ci, last);
    rest.truncate(last);
    plain_value(&sim, &rest, depth - 1, false)
}

#[test]
fn alpha_beta_finds_the_first_best_minimax_move() {
    let cards = [
        Card::new(15, CardType::Physical, 15, 15, ARROW_E),
        Card::new(3, CardType::Magic, 7, 1, 0b1010_1010),
        Card::new(9, CardType::Assault, 2, 4, 0b0101_0101),
        Card::new(1, CardType::Flexible, 12, 0, 0xFF),
    ];
    let mut seed: u32 = 7;
    let mut next = move || {
        seed = seed.wrapping_mul(1_103_515_245).wrapping_add(12_345);
        (seed >> 16) as usize
    };
    for _ in 0..12 {
        let mut board = Board::new();
        for r in 0..4 {
            for c in 0..4 {
                match next() % 5 {
                    0 => board.set(r, c, Cell::Blocked),
                    1 => board.set(r, c, Cell::Occupied { card: cards[next() % 4], owner: Owner::Red }),
                    2 => board.set(r, c, Cell::Occupied { card: cards[next() % 4], owner: Owner::Blue }),
                    _ => {}
                }
            }
        }
        let hand: Vec<Card> = (0..1 + next() % 3).map(|_| cards[next() % 4]).collect();
        let empty = board.empty_cells();
        let found = best_move(&board, &hand, Duration::from_nanos(1));
        if empty.is_empty() {
            assert!(found.is_none());
            continue;
        }
        let m = found.unwrap();
        let mut expected = None;
        let mut best = i32::MIN;
        for ci in 0..hand.len() {
            for &(r, c) in &empty {
                let v = child_value(&board, &hand, 3, ci, r, c);
                if v > best {
                    best = v;
                    expected = Some((ci, r, c));
                }
            }
        }
        assert_eq!(Some((m.card_index, m.row, m.col)), expected);
        assert_eq!(m.score, best);
    }
}

#[test]
fn fixed_depth_search_scores_the_minimax_value() {
    let cards = [
        Card::new(15, CardType::Physical, 15, 15, ARROW_E),
        Card::new(3, CardType::Magic, 7, 1, 0b1010_1010),
        Card::new(9, CardType::Assault, 2, 4, 0b0101_0101),
        Card::new(1, CardType::Flexible, 12, 0, 0xFF),
    ];
    let mut seed: u32 = 11;
    let mut next = move || {
        seed = seed.wrapping_mul(1_103_515_245).wrapping_add(12_345);
        (seed >> 16) as usize
    };
    for round in 0..12 {
        let mut board = Board::new();
        for r in 0..4 {
            for c in 0..4 {
                match next() % 4 {
                    0 => board.set(r, c, Cell::Blocked),
                    1 => board.set(r, c, Cell::Occupied { card: cards[next() % 4], owner: Owner::Red }),
                    2 => board.set(r, c, Cell::Occupied { card: cards[next() % 4], owner: Owner::Blue }),
                    _ => {}
                }
            }
        }
        let hand: Vec<Card> = (0..1 + next() % 3).map(|_| cards[next() % 4]).collect();
        let depth = 1 + (round % 3) as u32;
        let empty = board.empty_cells();
        let found = search_to_depth(&board, &hand, depth);
        assert!(search_to_depth(&board, &[], depth).is_none());
        if empty.is_empty() {
            assert!(found.is_none());
            continue;
        }
        let m = found.unwrap();
        assert_eq!(m.score, plain_value(&board, &hand, depth, true));
        let mut expected = None;
        let mut best = i32::MIN;
        for ci in 0..hand.len() {
            for &(r, c) in &empty {
                let v = child_value(&board, &hand, depth, ci, r, c);
                if v > best {
                    best = v;
                    expected = Some((ci, r, c));
                }
            }
        }
        assert_eq!(Some((m.card_index, m.row, m.col)), expected);
    }
}

#[test]
fn one_ply_search_takes_the_capture() {
    let mut board = Board::new();
    board.set(0, 1, Cell::Occupied { card: Card::new(0, CardType::Physical, 0, 0, 0), owner: Owner::Red });
    let m = search_to_depth(&board, &[strong_east()], 1).unwrap();
    assert_eq!((m.card_index, m.row, m.col, m.score), (0, 0, 0, 2));
}

fn sample_board() -> Board {
    let mut board = Board::new();
    board.set(0, 1, Cell::Occupied { card: Card::new(0, CardType::Physical, 0, 0, 0), owner: Owner::Red });
    board.set(1, 1, Cell::Occupied { card: Card::new(3, CardType::Magic, 2, 5, 0b1010_0000), owner: Owner::Blue });
    board.set(2, 2, Cell::Blocked);
    board
}

#[test]
fn minimax_with_a_full_window_is_the_minimax_value_and_restores_the_hand() {
    let board = sample_board();
    let hand = vec![strong_east(), Card::new(3, CardType::Magic, 7, 1, 0b1010_1010), Card::new(1, CardType::Flexible, 12, 0, 0xFF)];
    for depth in 0..4u32 {
        for blue in [true, false] {
            let mut working = hand.clone();
            let (score, timed_out) = minimax(&board, &mut working, hand.len(), depth, blue, i32::MIN, i32::MAX, None);
            assert!(!timed_out);
            assert_eq!(score, plain_value(&board, &hand, depth, blue));
            assert_eq!(working, hand);
        }
    }
}

#[test]
fn a_passed_deadline_cuts_the_search_short() {
    let board = sample_board();
    let hand = vec![strong_east(), Card::new(3, CardType::Magic, 7, 1, 0b1010_1010)];
    let passed = Some(Instant::now());
    let mut working = hand.clone();
    let (score, timed_out) = minimax(&board, &mut working, hand.len(), 3, true, i32::MIN, i32::MAX, passed);
    assert!(timed_out);
    assert_eq!(score, board.count(Owner::Blue) as i32 - board.count(Owner::Red) as i32);
    assert_eq!(working, hand);
    assert!(search_at_depth(&board, &hand, 3, passed).is_none());
    let m = search_at_depth(&board, &hand, 2, None).unwrap();
    let expected = search_to_depth(&board, &hand, 2).unwrap();
    assert_eq!((m.card_index, m.row, m.col, m.score), (expected.card_index, expected.row, expected.col, expected.score));
}

#[test]
fn minimax_with_any_window_restores_the_hand_and_scores_a_board() {
    let board = sample_board();
    let hand = vec![strong_east(), Card::new(3, CardType::Magic, 7, 1, 0b1010_1010)];
    for (alpha, beta) in [(5, 5), (3, -3), (i32::MAX, i32::MIN), (0, 1)] {
        for blue in [true, false] {
            let mut working = hand.clone();
            let (score, timed_out) = minimax(&board, &mut working, hand.len(), 2, blue, alpha, beta, None);
            assert!(!timed_out);
            assert!((-16..=16).contains(&score));
            assert_eq!(working, hand);
        }
    }
}

#[test]
fn a_search_on_a_full_board_finds_nothing_at_any_depth() {
    let mut board = Board::new();
    for r in 0..4 {
        for c in 0..4 {
            board.set(r, c, Cell::Blocked);
        }
    }
    let hand = vec![strong_east()];
    assert!(search_at_depth(&board, &hand, 0, None).is_none());
    assert!(search_at_depth(&board, &hand, 3, None).is_none());
    assert!(search_to_depth(&board, &hand, 0).is_none());
}
