use tetra_master::board::{BOARD_SIZE, Board, Cell, Owner, PlaceError};
use tetra_master::card::{ARROW_E, ARROW_S, ARROW_W, Card, CardType, Direction};
use tetra_master::history::cards_seen;

fn card_facing(dirs: &[Direction]) -> Card {
    let arrows = dirs.iter().fold(0u8, |acc, d| acc | d.arrow_bit());
    Card::new(15, CardType::Physical, 0, 0, arrows)
}

fn weak_card() -> Card {
    Card::new(0, CardType::Physical, 0, 0, 0)
}

fn strong_card(arrows: u8) -> Card {
    Card::new(15, CardType::Physical, 15, 15, arrows)
}

fn owner_at(board: &Board, row: usize, col: usize) -> Option<Owner> {
    match board.cell(row, col) {
        Cell::Occupied { owner, .. } => Some(owner),
        _ => None,
    }
}

#[test]
fn place_on_empty_cell() {
    let mut board = Board::new();
    let card = weak_card();
    assert!(board.place(0, 0, card, Owner::Blue).is_ok());
    assert!(matches!(board.cell(0, 0), Cell::Occupied { owner: Owner::Blue, .. }));
}

#[test]
fn place_on_occupied_fails() {
    let mut board = Board::new();
    let card = weak_card();
    board.place(0, 0, card, Owner::Blue).unwrap();
    assert!(board.place(0, 0, card, Owner::Red).is_err());
}

#[test]
fn no_battle_without_arrow() {
    let mut board = Board::new();
    board.set(0, 1, Cell::Occupied { card: weak_card(), owner: Owner::Red });
    board.place(0, 0, weak_card(), Owner::Blue).unwrap();
    assert!(matches!(board.cell(0, 1), Cell::Occupied { owner: Owner::Red, .. }));
}

#[test]
fn attacker_flips_weaker_adjacent() {
    let mut board = Board::new();
    board.set(0, 1, Cell::Occupied { card: weak_card(), owner: Owner::Red });
    board.place(0, 0, strong_card(ARROW_E), Owner::Blue).unwrap();
    assert!(
        matches!(board.cell(0, 1), Cell::Occupied { owner: Owner::Blue, .. }),
        "red card should have been flipped to blue"
    );
}

#[test]
fn defender_counterattacks() {
    let mut board = Board::new();
    board.set(0, 1, Cell::Occupied { card: strong_card(ARROW_W), owner: Owner::Red });
    board.place(0, 0, weak_card(), Owner::Red).unwrap();
    let mut board2 = Board::new();
    board2.set(0, 1, Cell::Occupied { card: strong_card(ARROW_W), owner: Owner::Red });
    board2.place(0, 0, Card::new(0, CardType::Physical, 0, 0, ARROW_E), Owner::Blue).unwrap();
    assert!(
        matches!(board2.cell(0, 0), Cell::Occupied { owner: Owner::Red, .. }),
        "blue weak card should have been flipped by red counterattack"
    );
}

#[test]
fn chain_flip_propagates() {
    let mut board = Board::new();
    board.set(1, 0, Cell::Occupied { card: card_facing(&[Direction::S]), owner: Owner::Red });
    board.set(2, 0, Cell::Occupied { card: weak_card(), owner: Owner::Red });
    board.place(0, 0, strong_card(ARROW_S), Owner::Blue).unwrap();
    assert!(matches!(board.cell(1, 0), Cell::Occupied { owner: Owner::Blue, .. }), "(1,0) should be flipped");
    assert!(matches!(board.cell(2, 0), Cell::Occupied { owner: Owner::Blue, .. }), "(2,0) should be chain-flipped");
}

#[test]
fn count_owners() {
    let mut board = Board::new();
    board.set(0, 0, Cell::Occupied { card: weak_card(), owner: Owner::Blue });
    board.set(0, 1, Cell::Occupied { card: weak_card(), owner: Owner::Blue });
    board.set(0, 2, Cell::Occupied { card: weak_card(), owner: Owner::Red });
    assert_eq!(board.count(Owner::Blue), 2);
    assert_eq!(board.count(Owner::Red), 1);
}

#[test]
fn empty_cells() {
    let mut board = Board::new();
    board.set(0, 0, Cell::Occupied { card: weak_card(), owner: Owner::Blue });
    board.set(0, 1, Cell::Blocked);
    let empty = board.empty_cells();
    assert_eq!(empty.len(), 14);
    assert!(!empty.contains(&(0, 0)));
    assert!(!empty.contains(&(0, 1)));
}

#[test]
fn empty_cells_are_in_row_major_order() {
    let mut board = Board::new();
    for r in 0..BOARD_SIZE {
        for c in 0..BOARD_SIZE {
            if (r + c) % 3 != 0 {
                board.set(r, c, Cell::Blocked);
            }
        }
    }
    assert_eq!(board.empty_cells(), vec![(0, 0), (0, 3), (1, 2), (2, 1), (3, 0), (3, 3)]);
}

#[test]
fn failed_placement_leaves_the_board_alone() {
    let mut board = Board::new();
    board.set(2, 3, Cell::Blocked);
    board.set(0, 0, Cell::Occupied { card: weak_card(), owner: Owner::Red });
    let before = board.cells;
    assert_eq!(board.place(2, 3, strong_card(0xFF), Owner::Blue), Err(PlaceError::CellNotEmpty { row: 2, col: 3 }));
    assert_eq!(board.place(0, 0, strong_card(0xFF), Owner::Blue), Err(PlaceError::CellNotEmpty { row: 0, col: 0 }));
    assert_eq!(board.cells, before);
}

#[test]
fn placing_adds_one_card_and_changes_only_owners() {
    let mut board = Board::new();
    board.set(1, 1, Cell::Occupied { card: weak_card(), owner: Owner::Red });
    board.set(1, 2, Cell::Occupied { card: card_facing(&[Direction::W]), owner: Owner::Red });
    board.set(3, 3, Cell::Blocked);
    let before = board.cells;
    let total = board.count(Owner::Blue) + board.count(Owner::Red);
    board.place(0, 1, strong_card(0xFF), Owner::Blue).unwrap();
    assert_eq!(board.count(Owner::Blue) + board.count(Owner::Red), total + 1);
    for r in 0..BOARD_SIZE {
        for c in 0..BOARD_SIZE {
            match (before[r][c], board.cell(r, c)) {
                (Cell::Occupied { card: a, .. }, Cell::Occupied { card: b, .. }) => assert_eq!(a, b),
                (Cell::Empty, Cell::Occupied { .. }) => assert_eq!((r, c), (0, 1)),
                (x, y) => assert_eq!(x, y),
            }
        }
    }
    assert_eq!(owner_at(&board, 1, 1), Some(Owner::Blue));
    assert_eq!(owner_at(&board, 1, 2), Some(Owner::Blue));
}

#[test]
fn a_card_flips_at_most_once_per_placement() {
    // Red's strong card at (0,1) is flipped by Blue's placement; its arrows
    // then attack the red card at (0,2) for Blue.
    let mut board = Board::new();
    board.set(0, 1, Cell::Occupied { card: Card::new(0, CardType::Physical, 0, 0, ARROW_E | ARROW_W), owner: Owner::Red });
    board.set(0, 2, Cell::Occupied { card: Card::new(0, CardType::Physical, 0, 0, ARROW_W), owner: Owner::Red });
    board.place(0, 0, Card::new(15, CardType::Assault, 0, 0, ARROW_E), Owner::Blue).unwrap();
    assert_eq!(owner_at(&board, 0, 1), Some(Owner::Blue));
    assert_eq!(owner_at(&board, 0, 2), Some(Owner::Blue));
    assert_eq!(owner_at(&board, 0, 0), Some(Owner::Blue));
}

#[test]
fn set_and_new() {
    let mut board = Board::new();
    for r in 0..BOARD_SIZE {
        for c in 0..BOARD_SIZE {
            assert_eq!(board.cell(r, c), Cell::Empty);
        }
    }
    board.set(3, 2, Cell::Blocked);
    assert_eq!(board.cell(3, 2), Cell::Blocked);
    assert_eq!(board.empty_cells().len(), 15);
}

#[test]
fn a_weak_assault_attack_fails() {
    let a = Card::new(0, CardType::Assault, 0, 0, ARROW_E);
    let r = Card::new(15, CardType::Physical, 15, 15, 0);
    let mut b = Board::new();
    b.set(0, 1, Cell::Occupied { card: r, owner: Owner::Red });
    assert!(b.place(0, 0, a, Owner::Blue).is_ok());
    assert_eq!(b.cell(0, 1), Cell::Occupied { card: r, owner: Owner::Red });
    assert_eq!(b.cell(0, 0), Cell::Occupied { card: a, owner: Owner::Blue });
}

fn blocked_count(board: &Board) -> usize {
    let mut n = 0;
    for r in 0..BOARD_SIZE {
        for c in 0..BOARD_SIZE {
            if board.cell(r, c) == Cell::Blocked {
                n += 1;
            }
        }
    }
    n
}

fn mixed_board() -> Board {
    let mut board = Board::new();
    board.set(0, 0, Cell::Blocked);
    board.set(0, 3, Cell::Occupied { card: weak_card(), owner: Owner::Red });
    board.set(1, 1, Cell::Occupied { card: weak_card(), owner: Owner::Blue });
    board.set(2, 2, Cell::Occupied { card: weak_card(), owner: Owner::Red });
    board.set(3, 0, Cell::Blocked);
    board.set(3, 3, Cell::Occupied { card: weak_card(), owner: Owner::Red });
    board
}

#[test]
fn cards_empty_and_blocked_cells_add_up_to_sixteen() {
    let board = mixed_board();
    assert_eq!(board.count(Owner::Blue), 1);
    assert_eq!(board.count(Owner::Red), 3);
    assert_eq!(board.empty_cells().len(), 10);
    assert_eq!(blocked_count(&board), 2);
    assert_eq!(board.count(Owner::Blue) + board.count(Owner::Red) + board.empty_cells().len() + blocked_count(&board), 16);
}

#[test]
fn empty_cells_come_in_row_major_order() {
    let cells = mixed_board().empty_cells();
    assert_eq!(cells[0], (0, 1));
    assert_eq!(cells[9], (3, 2));
    for w in cells.windows(2) {
        assert!(w[0].0 * 4 + w[0].1 < w[1].0 * 4 + w[1].1);
    }
}

#[test]
fn without_counterattack_the_placer_only_gains() {
    // Red's cards around (1,2) have no arrows, so nothing strikes back.
    let mut board = mixed_board();
    board.set(1, 3, Cell::Occupied { card: strong_card(0), owner: Owner::Red });
    let blue_before = board.count(Owner::Blue);
    let red_before = board.count(Owner::Red);
    let placed = Card::new(14, CardType::Physical, 0, 0, 0xFF);
    board.place(1, 2, placed, Owner::Blue).unwrap();
    assert_eq!(board.cell(1, 2), Cell::Occupied { card: placed, owner: Owner::Blue });
    assert_eq!(owner_at(&board, 1, 1), Some(Owner::Blue));
    // (0,3) and (2,2) fall; (1,3) holds: attack 14 is below its physical defence 15.
    assert_eq!(owner_at(&board, 0, 3), Some(Owner::Blue));
    assert_eq!(owner_at(&board, 2, 2), Some(Owner::Blue));
    assert_eq!(owner_at(&board, 1, 3), Some(Owner::Red));
    assert_eq!(board.count(Owner::Blue), blue_before + 3);
    assert_eq!(board.count(Owner::Red), red_before - 2);
}

#[test]
fn an_unanswered_attack_meets_the_chosen_defence() {
    // A Flexible attacker faces the lower defence: 6 against min(9, 6).
    let defender = Card::new(0, CardType::Physical, 9, 6, 0);
    let mut board = Board::new();
    board.set(2, 1, Cell::Occupied { card: defender, owner: Owner::Red });
    board.place(1, 1, Card::new(6, CardType::Flexible, 0, 0, ARROW_S), Owner::Blue).unwrap();
    assert_eq!(board.cell(2, 1), Cell::Occupied { card: defender, owner: Owner::Blue });

    let mut board = Board::new();
    board.set(2, 1, Cell::Occupied { card: defender, owner: Owner::Red });
    board.place(1, 1, Card::new(5, CardType::Flexible, 0, 0, ARROW_S), Owner::Blue).unwrap();
    assert_eq!(board.cell(2, 1), Cell::Occupied { card: defender, owner: Owner::Red });
}

#[test]
fn cards_seen_lists_the_cards_in_row_major_order() {
    let mut board = mixed_board();
    let strong = strong_card(ARROW_E);
    board.set(1, 0, Cell::Occupied { card: strong, owner: Owner::Blue });
    let seen = cards_seen(&board);
    assert_eq!(
        seen,
        vec![
            (weak_card(), Owner::Red),
            (strong, Owner::Blue),
            (weak_card(), Owner::Blue),
            (weak_card(), Owner::Red),
            (weak_card(), Owner::Red),
        ]
    );
    assert!(cards_seen(&Board::new()).is_empty());
}
