use std::time::Duration;
use tetra_master::board::{Board, Cell, Owner};
use tetra_master::card::{ARROW_E, ARROW_N, ARROW_NW, ARROW_S, ARROW_SE, Card, CardType};
use tetra_master::state::SaveState;
use tetra_master::tui::{App, CardTarget, Highlight, InputMode, Key, KeyOutcome, arrow_grid};

fn budget() -> Duration {
    Duration::from_nanos(1)
}

fn press(app: &mut App, key: Key) -> KeyOutcome {
    assert!(!app.key_panics_on(key));
    app.handle_key(key, budget())
}

fn type_text(app: &mut App, text: &str) {
    for ch in text.chars() {
        assert_eq!(press(app, Key::Char(ch)), KeyOutcome::Continue);
    }
}

fn weak() -> Card {
    Card::new(0, CardType::Physical, 0, 0, 0)
}

#[test]
fn new_app_is_blank() {
    let app = App::new();
    assert_eq!(app.board.empty_cells().len(), 16);
    assert!(app.hand.is_empty());
    assert!(app.best.is_none());
    assert!(app.input_mode == InputMode::Normal);
    assert_eq!(app.input_buf, "");
    assert_eq!(app.status_msg, "");
    assert_eq!(app.cursor, (0, 0));
    assert_eq!(app.selected_hand, 0);
}

#[test]
fn cursor_moves_and_stays_on_the_board() {
    let mut app = App::new();
    press(&mut app, Key::Left);
    press(&mut app, Key::Up);
    assert_eq!(app.cursor, (0, 0));
    for _ in 0..6 {
        press(&mut app, Key::Right);
        press(&mut app, Key::Down);
    }
    assert_eq!(app.cursor, (3, 3));
    press(&mut app, Key::Left);
    assert_eq!(app.cursor, (3, 2));
}

#[test]
fn adding_a_card_to_the_hand() {
    let mut app = App::new();
    assert_eq!(press(&mut app, Key::Char('i')), KeyOutcome::Continue);
    assert!(app.input_mode == InputMode::EnteringCard { target: CardTarget::Hand });
    assert_eq!(app.status_msg, "Enter card (e.g. 2P34 10110101):");
    type_text(&mut app, "2P34 10110101x");
    press(&mut app, Key::Backspace);
    assert_eq!(app.input_buf, "2P34 10110101");
    assert_eq!(press(&mut app, Key::Enter), KeyOutcome::Save);
    assert_eq!(app.hand, vec![Card::parse("2P34 10110101").unwrap()]);
    assert_eq!(app.status_msg, "Added 2P34 to hand (1 cards)");
    assert!(app.input_mode == InputMode::Normal);
    assert_eq!(app.input_buf, "");
}

#[test]
fn a_bad_card_keeps_the_entry_open() {
    let mut app = App::new();
    press(&mut app, Key::Char('i'));
    type_text(&mut app, "2Z34 10110101");
    assert_eq!(press(&mut app, Key::Enter), KeyOutcome::Continue);
    assert_eq!(app.status_msg, "Parse error: unknown card type 'Z'");
    assert!(app.input_mode == InputMode::EnteringCard { target: CardTarget::Hand });
    assert_eq!(app.input_buf, "");
    assert!(app.hand.is_empty());
    assert_eq!(press(&mut app, Key::Esc), KeyOutcome::Continue);
    assert_eq!(app.status_msg, "Cancelled.");
    assert!(app.input_mode == InputMode::Normal);
}

#[test]
fn placing_an_opponent_card() {
    let mut app = App::new();
    press(&mut app, Key::Down);
    press(&mut app, Key::Right);
    press(&mut app, Key::Right);
    press(&mut app, Key::Char('e'));
    assert_eq!(app.status_msg, "Place opponent card at (1,2) — enter stats:");
    type_text(&mut app, "1M00 00000001");
    assert_eq!(press(&mut app, Key::Enter), KeyOutcome::Save);
    assert_eq!(
        app.board.cell(1, 2),
        Cell::Occupied { card: Card::new(1, CardType::Magic, 0, 0, 1), owner: Owner::Red }
    );
    assert_eq!(app.status_msg, "Placed 1M00 at (1,2)");
}

#[test]
fn blocking_and_flipping() {
    let mut app = App::new();
    assert_eq!(press(&mut app, Key::Char('f')), KeyOutcome::Continue);
    assert_eq!(app.status_msg, "No card at cursor to flip.");
    assert_eq!(press(&mut app, Key::Char('b')), KeyOutcome::Save);
    assert_eq!(app.board.cell(0, 0), Cell::Blocked);
    assert_eq!(app.status_msg, "Blocked (0,0)");
    press(&mut app, Key::Right);
    app.board.set(0, 1, Cell::Occupied { card: weak(), owner: Owner::Blue });
    assert_eq!(press(&mut app, Key::Char('f')), KeyOutcome::Save);
    assert_eq!(app.board.cell(0, 1), Cell::Occupied { card: weak(), owner: Owner::Red });
    assert_eq!(app.status_msg, "Flipped (0,1) to Red.");
    press(&mut app, Key::Char('f'));
    assert_eq!(app.status_msg, "Flipped (0,1) to Blue.");
}

#[test]
fn placing_the_selected_card() {
    let mut app = App::new();
    assert_eq!(press(&mut app, Key::Char('p')), KeyOutcome::Continue);
    assert_eq!(app.status_msg, "No cards in hand.");
    let a = Card::new(1, CardType::Physical, 1, 1, 0);
    let b = Card::new(2, CardType::Magic, 2, 2, 0);
    let c = Card::new(3, CardType::Assault, 3, 3, 0);
    app.hand = vec![a, b, c];
    press(&mut app, Key::Char(']'));
    press(&mut app, Key::Char(']'));
    press(&mut app, Key::Char(']'));
    assert_eq!(app.selected_hand, 2);
    press(&mut app, Key::Char('['));
    assert_eq!(app.selected_hand, 1);
    assert_eq!(press(&mut app, Key::Char('p')), KeyOutcome::Save);
    assert_eq!(app.board.cell(0, 0), Cell::Occupied { card: b, owner: Owner::Blue });
    assert_eq!(app.hand, vec![a, c]);
    assert_eq!(app.selected_hand, 1);
    assert_eq!(app.status_msg, "Placed 2M22 at (0,0).");
    assert_eq!(press(&mut app, Key::Char('p')), KeyOutcome::Continue);
    assert_eq!(app.status_msg, "Cell (0,0) is not empty.");
}

#[test]
fn reset_and_quit() {
    let mut app = App::new();
    app.hand = vec![weak()];
    app.board.set(2, 2, Cell::Blocked);
    assert_eq!(press(&mut app, Key::Char('r')), KeyOutcome::Save);
    assert!(app.hand.is_empty());
    assert_eq!(app.board.empty_cells().len(), 16);
    assert_eq!(app.status_msg, "Board reset.");
    assert_eq!(press(&mut app, Key::Char('q')), KeyOutcome::Quit);
    assert_eq!(press(&mut app, Key::Char('z')), KeyOutcome::Continue);
    assert_eq!(press(&mut app, Key::Other), KeyOutcome::Continue);
}

#[test]
fn solving_reports_the_best_move() {
    let mut app = App::new();
    press(&mut app, Key::Char(' '));
    assert_eq!(app.status_msg, "No cards in hand.");
    app.board.set(0, 1, Cell::Occupied { card: weak(), owner: Owner::Red });
    app.hand = vec![Card::new(15, CardType::Physical, 15, 15, ARROW_E)];
    app.cursor = (3, 3);
    app.selected_hand = 4;
    assert_eq!(press(&mut app, Key::Char(' ')), KeyOutcome::Continue);
    let m = app.best.clone().unwrap();
    assert_eq!((m.card_index, m.row, m.col), (0, 0, 0));
    assert_eq!(app.selected_hand, 0);
    assert_eq!(app.cursor, (0, 0));
    assert_eq!(
        app.status_msg,
        format!("Best move: card 1 (FPFF) → (0,0)  net gain: {}  — press p to place", m.score)
    );
}

#[test]
fn solving_a_full_board() {
    let mut app = App::new();
    for r in 0..4 {
        for c in 0..4 {
            app.board.set(r, c, Cell::Blocked);
        }
    }
    app.hand = vec![weak()];
    app.solve(budget());
    assert!(app.best.is_none());
    assert_eq!(app.status_msg, "No moves available.");
}

#[test]
fn negative_scores_are_reported_with_a_sign() {
    let mut app = App::new();
    // Only (3,3) is empty; Red holds two cards and Blue's card cannot flip them.
    for r in 0..4 {
        for c in 0..4 {
            app.board.set(r, c, Cell::Blocked);
        }
    }
    app.board.set(3, 3, Cell::Empty);
    app.board.set(0, 0, Cell::Occupied { card: weak(), owner: Owner::Red });
    app.board.set(0, 1, Cell::Occupied { card: weak(), owner: Owner::Red });
    app.board.set(0, 2, Cell::Occupied { card: weak(), owner: Owner::Red });
    app.hand = vec![weak()];
    app.solve(budget());
    assert_eq!(app.best.clone().unwrap().score, -2);
    assert_eq!(app.status_msg, "Best move: card 1 (0P00) → (3,3)  net gain: -2  — press p to place");
}

#[test]
fn save_state_round_trip() {
    let mut app = App::new();
    app.hand = vec![weak()];
    app.board.set(1, 1, Cell::Blocked);
    app.cursor = (2, 3);
    let saved = app.to_save_state();
    assert_eq!(saved.hand, app.hand);
    assert_eq!(saved.cursor, (2, 3));
    let restored = App::from_save(saved);
    assert_eq!(restored.board.cells, app.board.cells);
    assert_eq!(restored.hand, app.hand);
    assert_eq!(restored.cursor, (2, 3));
    assert_eq!(restored.status_msg, "State restored.");
}

#[test]
fn restoring_clamps_the_cursor() {
    let app = App::from_save(SaveState { board: Board::new(), hand: vec![], cursor: (9, 2) });
    assert_eq!(app.cursor, (3, 2));
}

#[test]
fn panicking_keys_are_recognised() {
    let mut app = App::new();
    app.cursor = (4, 0);
    assert!(app.key_panics_on(Key::Char('b')));
    assert!(app.key_panics_on(Key::Char('f')));
    assert!(!app.key_panics_on(Key::Char('p')));
    app.hand = vec![weak()];
    assert!(app.key_panics_on(Key::Char('p')));
    app.cursor = (0, 0);
    press(&mut app, Key::Char('i'));
    type_text(&mut app, "éab 10110101");
    assert!(app.key_panics_on(Key::Enter));
}

#[test]
fn arrow_grid_lines() {
    let [top, mid, bot] = arrow_grid(ARROW_NW | ARROW_N | ARROW_E | ARROW_S | ARROW_SE);
    assert_eq!(top, "↖↑ ");
    assert_eq!(mid, "  →");
    assert_eq!(bot, " ↓↘");
    let [top, mid, bot] = arrow_grid(0xFF);
    assert_eq!((top.as_str(), mid.as_str(), bot.as_str()), ("↖↑↗", "← →", "↙↓↘"));
}

#[test]
fn a_run_of_key_presses_keeps_the_cursor_on_the_board() {
    let mut app = App::new();
    let keys = [
        Key::Up, Key::Down, Key::Left, Key::Right, Key::Char(' '), Key::Char('b'), Key::Char('f'),
        Key::Char('p'), Key::Char('['), Key::Char(']'), Key::Char('r'), Key::Char('o'), Key::Esc,
    ];
    let mut seed: u32 = 5;
    let mut next = move || {
        seed = seed.wrapping_mul(1_103_515_245).wrapping_add(12_345);
        (seed >> 16) as usize
    };
    press(&mut app, Key::Char('i'));
    type_text(&mut app, "FPFF 11111111");
    press(&mut app, Key::Enter);
    for _ in 0..300 {
        let key = keys[next() % keys.len()];
        if app.key_panics_on(key) {
            continue;
        }
        app.handle_key(key, budget());
        if app.input_mode != InputMode::Normal {
            app.handle_key(Key::Esc, budget());
        }
        assert!(app.cursor.0 < 4 && app.cursor.1 < 4, "{:?}", app.cursor);
    }
}

#[test]
fn board_cells_are_drawn_with_their_text_and_highlight() {
    let mut app = App::new();
    app.board.set(1, 2, Cell::Blocked);
    let card = Card::new(2, CardType::Physical, 3, 4, ARROW_N | ARROW_E);
    app.board.set(2, 1, Cell::Occupied { card, owner: Owner::Red });
    let look = app.cell_look(0, 0);
    assert_eq!(look.highlight, Highlight::Cursor);
    assert!(look.on_cursor && !look.on_best);
    assert_eq!(look.lines, ["       ".to_string(), "   ·   ".to_string(), "       ".to_string()]);
    let look = app.cell_look(1, 2);
    assert_eq!(look.highlight, Highlight::Plain);
    assert_eq!(look.lines[1], "▓▓▓▓▓▓▓");
    let look = app.cell_look(2, 1);
    assert_eq!(look.lines, [" ↑ ".to_string(), "  → 2P34".to_string(), "   ".to_string()]);

    app.hand.push(Card::new(15, CardType::Physical, 15, 15, ARROW_E));
    press(&mut app, Key::Left);
    press(&mut app, Key::Char(' '));
    let m = app.best.unwrap();
    assert_eq!(app.cursor, (m.row, m.col));
    let look = app.cell_look(m.row, m.col);
    assert_eq!(look.highlight, Highlight::Cursor);
    assert!(look.on_best);
    press(&mut app, Key::Right);
    let look = app.cell_look(m.row, m.col);
    if app.cursor != (m.row, m.col) {
        assert_eq!(look.highlight, Highlight::Best);
        assert!(look.on_best && !look.on_cursor);
    }
}
