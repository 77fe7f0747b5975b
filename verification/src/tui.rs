use std::time::Duration;
use vstd::prelude::*;
use vstd::string::StringExecFns;
use crate::board::{BOARD_SIZE, Board, Cell, Grid, Owner, empty_grid, empty_positions, put, well_shaped};
use crate::card::{
    ARROW_E, ARROW_N, ARROW_NE, ARROW_NW, ARROW_S, ARROW_SE, ARROW_SW, ARROW_W, Card, Direction, stat_text,
};
use crate::notation::{error_text, parse_panics, parse_result};
use crate::solver::{MAX_DEPTH, MIN_DEPTH, Move, best_move, is_best_at_depth, legal_move};
use crate::state::SaveState;
use crate::text::{decimal, signed_decimal, pop_char, push_char, push_decimal, push_signed_decimal};

verus! {

/// Where a card being typed in goes.
#[derive(Clone, Copy, Debug, PartialEq, Eq, Structural)]
pub enum CardTarget {
    Hand,
    Board { row: usize, col: usize, owner: Owner },
}

/// Whether keys move around the board or type in a card.
#[derive(Clone, Copy, Debug, PartialEq, Eq, Structural)]
pub enum InputMode {
    Normal,
    EnteringCard { target: CardTarget },
}

/// A key press, as the adviser reads it.
#[derive(Clone, Copy, Debug, PartialEq, Eq, Structural)]
pub enum Key {
    Left,
    Right,
    Up,
    Down,
    Char(char),
    Backspace,
    Enter,
    Esc,
    Other,
}

/// What the adviser does after a key press.
#[derive(Clone, Copy, Debug, PartialEq, Eq, Structural)]
pub enum KeyOutcome {
    /// Wait for the next key.
    Continue,
    /// Save the state, then wait for the next key.
    Save,
    /// Leave.
    Quit,
}

/// The state of the adviser's screen.
pub struct App {
    pub board: Board,
    pub hand: Vec<Card>,
    pub best: Option<Move>,
    pub input_mode: InputMode,
    pub input_buf: String,
    pub status_msg: String,
    pub cursor: (usize, usize),
    pub selected_hand: usize,
}

/// The state of the adviser as mathematical values.
#[verifier::ext_equal]
pub struct AppView {
    pub board: Grid,
    pub hand: Seq<Card>,
    pub best: Option<Move>,
    pub input_mode: InputMode,
    pub input_buf: Seq<char>,
    pub status_msg: Seq<char>,
    pub cursor: (usize, usize),
    pub selected_hand: usize,
}

impl View for App {
    type V = AppView;

    open spec fn view(&self) -> AppView {
        AppView {
            board: self.board@,
            hand: self.hand@,
            best: self.best,
            input_mode: self.input_mode,
            input_buf: self.input_buf@,
            status_msg: self.status_msg@,
            cursor: self.cursor,
            selected_hand: self.selected_hand,
        }
    }
}

/// `prefix (r,c) suffix`, with the coordinates in decimal.
pub open spec fn at_text(prefix: Seq<char>, r: usize, c: usize, suffix: Seq<char>) -> Seq<char> {
    prefix + decimal(r as nat) + ","@ + decimal(c as nat) + suffix
}

/// The message that reports the recommended move.
pub open spec fn best_move_text(m: Move, hand: Seq<Card>) -> Seq<char> {
    "Best move: card "@ + decimal((m.card_index + 1) as nat) + " ("@ + stat_text(hand[m.card_index as int])
        + ") → ("@ + decimal(m.row as nat) + ","@ + decimal(m.col as nat) + ")  net gain: "@
        + signed_decimal(m.score as int) + "  — press p to place"@
}

/// What solving does to the adviser: with an empty hand it only says so;
/// otherwise it stores the best move of the hand on the board (Blue's first
/// best move of a finished search at some depth from `MIN_DEPTH` to
/// `MAX_DEPTH`), selects its card and cell and reports it, or reports that
/// there is no move.
pub open spec fn solved(a: AppView, b: AppView) -> bool {
    if a.hand.len() == 0 {
        b == AppView { status_msg: "No cards in hand."@, ..a }
    } else {
        &&& b.board == a.board
        &&& b.hand == a.hand
        &&& b.input_mode == a.input_mode
        &&& b.input_buf == a.input_buf
        &&& (b.best is Some <==> empty_positions(a.board).len() > 0)
        &&& match b.best {
            Some(m) => {
                &&& legal_move(a.board, a.hand, m)
                &&& -16 <= m.score <= 16
                &&& exists|d: nat| MIN_DEPTH <= d <= MAX_DEPTH && #[trigger] is_best_at_depth(a.board, a.hand, d, m)
                &&& b.selected_hand == m.card_index
                &&& b.cursor == (m.row, m.col)
                &&& b.status_msg == best_move_text(m, a.hand)
            },
            None => {
                &&& b.selected_hand == a.selected_hand
                &&& b.cursor == a.cursor
                &&& b.status_msg == "No moves available."@
            },
        }
    }
}

/// The owner a card flips to.
pub open spec fn other_owner(o: Owner) -> Owner {
    match o {
        Owner::Blue => Owner::Red,
        Owner::Red => Owner::Blue,
    }
}

pub open spec fn owner_name(o: Owner) -> Seq<char> {
    match o {
        Owner::Blue => "Blue"@,
        Owner::Red => "Red"@,
    }
}

pub open spec fn min_usize(a: usize, b: usize) -> usize {
    if a <= b { a } else { b }
}

pub open spec fn saturating_dec(a: usize) -> usize {
    if a > 0 { (a - 1) as usize } else { 0 }
}

/// What a key press does in normal mode, for every key but Space.
pub open spec fn normal_step(a: AppView, key: Key) -> (AppView, KeyOutcome) {
    let (r, c) = a.cursor;
    match key {
        Key::Left => (AppView { cursor: (r, saturating_dec(c)), ..a }, KeyOutcome::Continue),
        Key::Right => (AppView { cursor: (r, min_usize((c + 1) as usize, 3)), ..a }, KeyOutcome::Continue),
        Key::Up => (AppView { cursor: (saturating_dec(r), c), ..a }, KeyOutcome::Continue),
        Key::Down => (AppView { cursor: (min_usize((r + 1) as usize, 3), c), ..a }, KeyOutcome::Continue),
        Key::Char(ch) => if ch == 'q' {
            (a, KeyOutcome::Quit)
        } else if ch == 'i' {
            (AppView {
                input_mode: InputMode::EnteringCard { target: CardTarget::Hand },
                input_buf: Seq::empty(),
                status_msg: "Enter card (e.g. 2P34 10110101):"@,
                ..a
            }, KeyOutcome::Continue)
        } else if ch == 'e' {
            (AppView {
                input_mode: InputMode::EnteringCard { target: CardTarget::Board { row: r, col: c, owner: Owner::Red } },
                input_buf: Seq::empty(),
                status_msg: at_text("Place opponent card at ("@, r, c, ") — enter stats:"@),
                ..a
            }, KeyOutcome::Continue)
        } else if ch == 'b' {
            (AppView {
                board: put(a.board, r as int, c as int, Cell::Blocked),
                status_msg: at_text("Blocked ("@, r, c, ")"@),
                ..a
            }, KeyOutcome::Save)
        } else if ch == '[' {
            if a.hand.len() > 0 {
                (AppView { selected_hand: saturating_dec(a.selected_hand), ..a }, KeyOutcome::Continue)
            } else {
                (a, KeyOutcome::Continue)
            }
        } else if ch == ']' {
            if a.hand.len() > 0 {
                (AppView {
                    selected_hand: min_usize((a.selected_hand + 1) as usize, (a.hand.len() - 1) as usize),
                    ..a
                }, KeyOutcome::Continue)
            } else {
                (a, KeyOutcome::Continue)
            }
        } else if ch == 'f' {
            match a.board[r as int][c as int] {
                Cell::Occupied { card, owner } => (AppView {
                    board: put(a.board, r as int, c as int, Cell::Occupied { card, owner: other_owner(owner) }),
                    best: None,
                    status_msg: at_text("Flipped ("@, r, c, ") to "@) + owner_name(other_owner(owner)) + "."@,
                    ..a
                }, KeyOutcome::Save),
                _ => (AppView { status_msg: "No card at cursor to flip."@, ..a }, KeyOutcome::Continue),
            }
        } else if ch == 'p' {
            if a.hand.len() == 0 {
                (AppView { status_msg: "No cards in hand."@, ..a }, KeyOutcome::Continue)
            } else if !(a.board[r as int][c as int] is Empty) {
                (AppView { status_msg: at_text("Cell ("@, r, c, ") is not empty."@), ..a }, KeyOutcome::Continue)
            } else {
                let idx = min_usize(a.selected_hand, (a.hand.len() - 1) as usize);
                let card = a.hand[idx as int];
                let rest = a.hand.remove(idx as int);
                (AppView {
                    board: put(a.board, r as int, c as int, Cell::Occupied { card, owner: Owner::Blue }),
                    hand: rest,
                    selected_hand: min_usize(idx, saturating_dec(rest.len() as usize)),
                    best: None,
                    status_msg: "Placed "@ + stat_text(card) + at_text(" at ("@, r, c, ")."@),
                    ..a
                }, KeyOutcome::Save)
            }
        } else if ch == 'r' {
            (AppView {
                board: empty_grid(),
                hand: Seq::empty(),
                best: None,
                status_msg: "Board reset."@,
                ..a
            }, KeyOutcome::Save)
        } else {
            (a, KeyOutcome::Continue)
        },
        _ => (a, KeyOutcome::Continue),
    }
}

/// What a key press does while a card is typed in for `target`.
pub open spec fn entry_step(a: AppView, target: CardTarget, key: Key) -> (AppView, KeyOutcome) {
    match key {
        Key::Char(ch) => (AppView { input_buf: a.input_buf.push(ch), ..a }, KeyOutcome::Continue),
        Key::Backspace => (AppView {
            input_buf: if a.input_buf.len() > 0 { a.input_buf.drop_last() } else { a.input_buf },
            ..a
        }, KeyOutcome::Continue),
        Key::Enter => match parse_result(a.input_buf) {
            Err(e) => (AppView { status_msg: "Parse error: "@ + error_text(e), input_buf: Seq::empty(), ..a }, KeyOutcome::Continue),
            Ok(card) => match target {
                CardTarget::Hand => (AppView {
                    hand: a.hand.push(card),
                    input_mode: InputMode::Normal,
                    input_buf: Seq::empty(),
                    status_msg: "Added "@ + stat_text(card) + " to hand ("@ + decimal(a.hand.len() + 1) + " cards)"@,
                    ..a
                }, KeyOutcome::Save),
                CardTarget::Board { row, col, owner } => (AppView {
                    board: put(a.board, row as int, col as int, Cell::Occupied { card, owner }),
                    input_mode: InputMode::Normal,
                    input_buf: Seq::empty(),
                    status_msg: "Placed "@ + stat_text(card) + at_text(" at ("@, row, col, ")"@),
                    ..a
                }, KeyOutcome::Save),
            },
        },
        Key::Esc => (AppView {
            input_mode: InputMode::Normal,
            input_buf: Seq::empty(),
            status_msg: "Cancelled."@,
            ..a
        }, KeyOutcome::Continue),
        _ => (a, KeyOutcome::Continue),
    }
}

/// The key presses on which the adviser would index the board off its
/// edge, overflow a counter, or read a card by cutting a character.
pub open spec fn key_panics(a: AppView, key: Key) -> bool {
    let (r, c) = a.cursor;
    match a.input_mode {
        InputMode::Normal => match key {
            Key::Right => c == usize::MAX,
            Key::Down => r == usize::MAX,
            Key::Char(ch) => {
                ||| (ch == 'b' || ch == 'f') && !(r < 4 && c < 4)
                ||| ch == 'p' && a.hand.len() > 0 && !(r < 4 && c < 4)
                ||| ch == ']' && a.hand.len() > 0 && a.selected_hand == usize::MAX
            },
            _ => false,
        },
        InputMode::EnteringCard { target } => match key {
            Key::Enter => {
                ||| parse_panics(a.input_buf)
                ||| parse_result(a.input_buf) is Ok && (target matches CardTarget::Board { row, col, .. }
                    && !(row < 4 && col < 4))
            },
            _ => false,
        },
    }
}

/// What a key press does, for every key but Space in normal mode (see `solved`).
pub open spec fn key_step(a: AppView, key: Key) -> (AppView, KeyOutcome) {
    match a.input_mode {
        InputMode::Normal => normal_step(a, key),
        InputMode::EnteringCard { target } => entry_step(a, target, key),
    }
}

/// The character shown for one arrow of a card on the board: its symbol when
/// the card has it, else a space.
pub open spec fn grid_symbol(arrows: u8, bit: u8, sym: char) -> char {
    if arrows & bit != 0 { sym } else { ' ' }
}

/// The three lines of arrows drawn on a board cell:
/// `↖↑↗`, `← →` and `↙↓↘`, with a space for each missing arrow.
pub open spec fn arrow_lines(arrows: u8) -> Seq<Seq<char>> {
    seq![
        seq![grid_symbol(arrows, ARROW_NW, '↖'), grid_symbol(arrows, ARROW_N, '↑'), grid_symbol(arrows, ARROW_NE, '↗')],
        seq![grid_symbol(arrows, ARROW_W, '←'), ' ', grid_symbol(arrows, ARROW_E, '→')],
        seq![grid_symbol(arrows, ARROW_SW, '↙'), grid_symbol(arrows, ARROW_S, '↓'), grid_symbol(arrows, ARROW_SE, '↘')],
    ]
}

fn grid_char(arrows: u8, bit: u8, sym: char) -> (r: char)
    ensures
        r == grid_symbol(arrows, bit, sym),
{
    if arrows & bit != 0 { sym } else { ' ' }
}

/// The arrow grid drawn on a board cell has three lines of three places.
/// The place of direction `d`, one step from the centre by `d`'s own row
/// and column steps, shows `d`'s arrow exactly when the card points in
/// direction `d`, and a space otherwise; the centre is blank.
pub proof fn lemma_arrow_lines(arrows: u8)
    ensures
        arrow_lines(arrows).len() == 3,
        forall|r: int| 0 <= r < 3 ==> #[trigger] arrow_lines(arrows)[r].len() == 3,
        arrow_lines(arrows)[1][1] == ' ',
        forall|d: Direction|
            #[trigger] arrow_lines(arrows)[d.row_step() + 1][d.col_step() + 1] == if arrows & d.mask() != 0 {
                d.symbol()
            } else {
                ' '
            },
{
    assert forall|d: Direction|
        #[trigger] arrow_lines(arrows)[d.row_step() + 1][d.col_step() + 1] == if arrows & d.mask() != 0 {
            d.symbol()
        } else {
            ' '
        } by {
        match d {
            Direction::N => {},
            Direction::NE => {},
            Direction::E => {},
            Direction::SE => {},
            Direction::S => {},
            Direction::SW => {},
            Direction::W => {},
            Direction::NW => {},
        }
    }
}

/// The `k`-th of the three arrow lines of a board cell.
fn arrow_line(arrows: u8, k: usize) -> (s: String)
    requires
        k < 3,
    ensures
        s@ == arrow_lines(arrows)[k as int],
{
    let mut s = String::new();
    if k == 0 {
        push_char(&mut s, grid_char(arrows, ARROW_NW, '↖'));
        push_char(&mut s, grid_char(arrows, ARROW_N, '↑'));
        push_char(&mut s, grid_char(arrows, ARROW_NE, '↗'));
    } else if k == 1 {
        push_char(&mut s, grid_char(arrows, ARROW_W, '←'));
        push_char(&mut s, ' ');
        push_char(&mut s, grid_char(arrows, ARROW_E, '→'));
    } else {
        push_char(&mut s, grid_char(arrows, ARROW_SW, '↙'));
        push_char(&mut s, grid_char(arrows, ARROW_S, '↓'));
        push_char(&mut s, grid_char(arrows, ARROW_SE, '↘'));
    }
    assert(s@ =~= arrow_lines(arrows)[k as int]);
    s
}

/// Returns the top, middle and bottom arrow rows for display across 3 lines.
pub fn arrow_grid(arrows: u8) -> (r: [String; 3])
    ensures
        r[0]@ == arrow_lines(arrows)[0],
        r[1]@ == arrow_lines(arrows)[1],
        r[2]@ == arrow_lines(arrows)[2],
{
    [arrow_line(arrows, 0), arrow_line(arrows, 1), arrow_line(arrows, 2)]
}

/// Which highlight the frame of a board cell takes: the cursor's first, then
/// the recommended move's, else none.
#[derive(Clone, Copy, Debug, PartialEq, Eq, Structural)]
pub enum Highlight {
    Cursor,
    Best,
    Plain,
}

/// Whether the recommended move, if any, goes on (`row`, `col`).
pub open spec fn is_best_cell(best: Option<Move>, row: usize, col: usize) -> bool {
    best matches Some(m) && m.row == row && m.col == col
}

pub open spec fn highlight_at(a: AppView, row: usize, col: usize) -> Highlight {
    if a.cursor == (row, col) {
        Highlight::Cursor
    } else if is_best_cell(a.best, row, col) {
        Highlight::Best
    } else {
        Highlight::Plain
    }
}

/// The three text lines drawn in a board cell: a dot for an empty cell,
/// shading for a blocked one, and for a card its arrows with its stats
/// beside the middle line.
pub open spec fn cell_lines(x: Cell) -> Seq<Seq<char>> {
    match x {
        Cell::Empty => seq!["       "@, "   ·   "@, "       "@],
        Cell::Blocked => seq!["▓▓▓▓▓▓▓"@, "▓▓▓▓▓▓▓"@, "▓▓▓▓▓▓▓"@],
        Cell::Occupied { card, .. } => seq![
            arrow_lines(card.arrows)[0],
            arrow_lines(card.arrows)[1] + " "@ + stat_text(card),
            arrow_lines(card.arrows)[2],
        ],
    }
}

/// How a board cell is drawn: its frame's highlight, whether the cursor or
/// the recommended move is on it, and its three text lines.
pub struct CellLook {
    pub highlight: Highlight,
    pub on_cursor: bool,
    pub on_best: bool,
    pub lines: [String; 3],
}

impl App {
    /// How the board cell (`row`, `col`) is drawn.
    pub fn cell_look(&self, row: usize, col: usize) -> (r: CellLook)
        requires
            row < BOARD_SIZE,
            col < BOARD_SIZE,
        ensures
            r.on_cursor == (self@.cursor == (row, col)),
            r.on_best == is_best_cell(self@.best, row, col),
            r.highlight == highlight_at(self@, row, col),
            r.lines[0]@ == cell_lines(self@.board[row as int][col as int])[0],
            r.lines[1]@ == cell_lines(self@.board[row as int][col as int])[1],
            r.lines[2]@ == cell_lines(self@.board[row as int][col as int])[2],
    {
        let on_cursor = self.cursor.0 == row && self.cursor.1 == col;
        let on_best = match self.best {
            Some(m) => m.row == row && m.col == col,
            None => false,
        };
        let highlight = if on_cursor {
            Highlight::Cursor
        } else if on_best {
            Highlight::Best
        } else {
            Highlight::Plain
        };
        let lines = match self.board.cell(row, col) {
            Cell::Empty => [String::from_str("       "), String::from_str("   ·   "), String::from_str("       ")],
            Cell::Blocked => [
                String::from_str("▓▓▓▓▓▓▓"),
                String::from_str("▓▓▓▓▓▓▓"),
                String::from_str("▓▓▓▓▓▓▓"),
            ],
            Cell::Occupied { card, .. } => {
                let stat = card.stat_string();
                let mut mid = arrow_line(card.arrows, 1);
                mid.append(" ");
                mid.append(stat.as_str());
                [arrow_line(card.arrows, 0), mid, arrow_line(card.arrows, 2)]
            },
        };
        CellLook { highlight, on_cursor, on_best, lines }
    }
}

/// `prefix (r,c) suffix`.
fn at_string(prefix: &str, r: usize, c: usize, suffix: &str) -> (s: String)
    ensures
        s@ == at_text(prefix@, r, c, suffix@),
{
    let mut s = String::from_str(prefix);
    push_decimal(&mut s, r as u64);
    s.append(",");
    push_decimal(&mut s, c as u64);
    s.append(suffix);
    s
}

fn copy_hand(hand: &Vec<Card>) -> (r: Vec<Card>)
    ensures
        r@ == hand@,
{
    let mut out: Vec<Card> = Vec::new();
    let mut i: usize = 0;
    while i < hand.len()
        invariant
            i <= hand@.len(),
            out@ == hand@.take(i as int),
        decreases hand@.len() - i,
    {
        out.push(hand[i]);
        i = i + 1;
        assert(out@ =~= hand@.take(i as int));
    }
    assert(out@ =~= hand@);
    out
}

impl App {
    pub fn new() -> (app: Self)
        ensures
            app@ == (AppView {
                board: empty_grid(),
                hand: Seq::empty(),
                best: None,
                input_mode: InputMode::Normal,
                input_buf: Seq::empty(),
                status_msg: Seq::empty(),
                cursor: (0, 0),
                selected_hand: 0,
            }),
    {
        let app = Self {
            board: Board::new(),
            hand: Vec::new(),
            best: None,
            input_mode: InputMode::Normal,
            input_buf: String::new(),
            status_msg: String::new(),
            cursor: (0, 0),
            selected_hand: 0,
        };
        assert(app@ =~= (AppView {
            board: empty_grid(),
            hand: Seq::empty(),
            best: None,
            input_mode: InputMode::Normal,
            input_buf: Seq::empty(),
            status_msg: Seq::empty(),
            cursor: (0, 0),
            selected_hand: 0,
        }));
        app
    }

    /// The adviser as a saved state left it; the cursor is kept on the board.
    pub fn from_save(s: SaveState) -> (app: Self)
        ensures
            app@ == restored(s.board@, s.hand@, s.cursor),
    {
        let mut app = Self::new();
        app.board = s.board;
        app.hand = s.hand;
        let r = if s.cursor.0 <= 3 { s.cursor.0 } else { 3 };
        let c = if s.cursor.1 <= 3 { s.cursor.1 } else { 3 };
        app.cursor = (r, c);
        app.status_msg = String::from_str("State restored.");
        assert(app@ =~= restored(s.board@, s.hand@, s.cursor));
        app
    }

    /// The part of the state that is saved.
    pub fn to_save_state(&self) -> (s: SaveState)
        ensures
            s.board@ == self.board@,
            s.hand@ == self.hand@,
            s.cursor == self.cursor,
    {
        SaveState { board: self.board, hand: copy_hand(&self.hand), cursor: self.cursor }
    }

    /// Searches the best move for the hand and selects it.
    pub fn solve(&mut self, time_budget: Duration)
        ensures
            solved(old(self)@, final(self)@),
    {
        if self.hand.len() == 0 {
            self.status_msg = String::from_str("No cards in hand.");
            assert(self@ =~= AppView { status_msg: "No cards in hand."@, ..old(self)@ });
            return;
        }
        self.best = best_move(&self.board, self.hand.as_slice(), time_budget);
        match self.best {
            None => {
                self.status_msg = String::from_str("No moves available.");
            },
            Some(m) => {
                self.selected_hand = m.card_index;
                self.cursor = (m.row, m.col);
                let stat = self.hand[m.card_index].stat_string();
                let mut s = String::from_str("Best move: card ");
                push_decimal(&mut s, m.card_index as u64 + 1);
                s.append(" (");
                s.append(stat.as_str());
                s.append(") → (");
                push_decimal(&mut s, m.row as u64);
                s.append(",");
                push_decimal(&mut s, m.col as u64);
                s.append(")  net gain: ");
                push_signed_decimal(&mut s, m.score as i64);
                s.append("  — press p to place");
                self.status_msg = s;
                assert(self.status_msg@ =~= best_move_text(m, old(self)@.hand));
            },
        }
    }
}

impl App {
    /// A key press in normal mode, other than Space.
    fn normal_key(&mut self, key: Key) -> (out: KeyOutcome)
        requires
            old(self)@.input_mode is Normal,
            !key_panics(old(self)@, key),
            key != Key::Char(' '),
        ensures
            (final(self)@, out) == normal_step(old(self)@, key),
    {
        let ghost a = self@;
        let (r, c) = self.cursor;
        match key {
            Key::Left => {
                self.cursor = (r, if c > 0 { c - 1 } else { 0 });
                assert(self@ =~= normal_step(a, key).0);
                KeyOutcome::Continue
            },
            Key::Right => {
                self.cursor = (r, if c + 1 <= 3 { c + 1 } else { 3 });
                assert(self@ =~= normal_step(a, key).0);
                KeyOutcome::Continue
            },
            Key::Up => {
                self.cursor = (if r > 0 { r - 1 } else { 0 }, c);
                assert(self@ =~= normal_step(a, key).0);
                KeyOutcome::Continue
            },
            Key::Down => {
                self.cursor = (if r + 1 <= 3 { r + 1 } else { 3 }, c);
                assert(self@ =~= normal_step(a, key).0);
                KeyOutcome::Continue
            },
            Key::Char(ch) => {
                if ch == 'q' {
                    assert(self@ =~= normal_step(a, key).0);
                    KeyOutcome::Quit
                } else if ch == 'i' {
                    self.input_mode = InputMode::EnteringCard { target: CardTarget::Hand };
                    self.input_buf = String::new();
                    self.status_msg = String::from_str("Enter card (e.g. 2P34 10110101):");
                    assert(self@ =~= normal_step(a, key).0);
                    KeyOutcome::Continue
                } else if ch == 'e' {
                    self.input_mode = InputMode::EnteringCard {
                        target: CardTarget::Board { row: r, col: c, owner: Owner::Red },
                    };
                    self.input_buf = String::new();
                    self.status_msg = at_string("Place opponent card at (", r, c, ") — enter stats:");
                    assert(self@ =~= normal_step(a, key).0);
                    KeyOutcome::Continue
                } else if ch == 'b' {
                    self.board.set(r, c, Cell::Blocked);
                    self.status_msg = at_string("Blocked (", r, c, ")");
                    assert(self@ =~= normal_step(a, key).0);
                    KeyOutcome::Save
                } else if ch == '[' {
                    if self.hand.len() > 0 {
                        self.selected_hand = if self.selected_hand > 0 { self.selected_hand - 1 } else { 0 };
                    }
                    assert(self@ =~= normal_step(a, key).0);
                    KeyOutcome::Continue
                } else if ch == ']' {
                    if self.hand.len() > 0 {
                        let next = self.selected_hand + 1;
                        let top = self.hand.len() - 1;
                        self.selected_hand = if next <= top { next } else { top };
                    }
                    assert(self@ =~= normal_step(a, key).0);
                    KeyOutcome::Continue
                } else if ch == 'f' {
                    match self.board.cell(r, c) {
                        Cell::Occupied { card, owner } => {
                            let new_owner = match owner {
                                Owner::Blue => Owner::Red,
                                Owner::Red => Owner::Blue,
                            };
                            self.board.set(r, c, Cell::Occupied { card, owner: new_owner });
                            self.best = None;
                            let mut s = at_string("Flipped (", r, c, ") to ");
                            match new_owner {
                                Owner::Blue => s.append("Blue"),
                                Owner::Red => s.append("Red"),
                            }
                            s.append(".");
                            self.status_msg = s;
                            assert(self@ =~= normal_step(a, key).0);
                            KeyOutcome::Save
                        },
                        _ => {
                            self.status_msg = String::from_str("No card at cursor to flip.");
                            assert(self@ =~= normal_step(a, key).0);
                            KeyOutcome::Continue
                        },
                    }
                } else if ch == 'p' {
                    if self.hand.len() == 0 {
                        self.status_msg = String::from_str("No cards in hand.");
                        assert(self@ =~= normal_step(a, key).0);
                        KeyOutcome::Continue
                    } else {
                        match self.board.cell(r, c) {
                            Cell::Empty => {
                                let top = self.hand.len() - 1;
                                let idx = if self.selected_hand <= top { self.selected_hand } else { top };
                                let card = self.hand.remove(idx);
                                let left = if self.hand.len() > 0 { self.hand.len() - 1 } else { 0 };
                                self.selected_hand = if idx <= left { idx } else { left };
                                self.board.set(r, c, Cell::Occupied { card, owner: Owner::Blue });
                                self.best = None;
                                let mut s = String::from_str("Placed ");
                                let stat = card.stat_string();
                                s.append(stat.as_str());
                                let place = at_string(" at (", r, c, ").");
                                s.append(place.as_str());
                                self.status_msg = s;
                                assert(self@ =~= normal_step(a, key).0);
                                KeyOutcome::Save
                            },
                            _ => {
                                self.status_msg = at_string("Cell (", r, c, ") is not empty.");
                                assert(self@ =~= normal_step(a, key).0);
                                KeyOutcome::Continue
                            },
                        }
                    }
                } else if ch == 'r' {
                    self.board = Board::new();
                    self.hand.clear();
                    self.best = None;
                    self.status_msg = String::from_str("Board reset.");
                    assert(self@ =~= normal_step(a, key).0);
                    KeyOutcome::Save
                } else {
                    assert(self@ =~= normal_step(a, key).0);
                    KeyOutcome::Continue
                }
            },
            _ => {
                assert(self@ =~= normal_step(a, key).0);
                KeyOutcome::Continue
            },
        }
    }

    /// A key press while a card is typed in for `target`.
    fn entry_key(&mut self, target: CardTarget, key: Key) -> (out: KeyOutcome)
        requires
            old(self)@.input_mode == (InputMode::EnteringCard { target }),
            !key_panics(old(self)@, key),
        ensures
            (final(self)@, out) == entry_step(old(self)@, target, key),
    {
        let ghost a = self@;
        match key {
            Key::Char(ch) => {
                push_char(&mut self.input_buf, ch);
                assert(self@ =~= entry_step(a, target, key).0);
                KeyOutcome::Continue
            },
            Key::Backspace => {
                let _ = pop_char(&mut self.input_buf);
                assert(self@ =~= entry_step(a, target, key).0);
                KeyOutcome::Continue
            },
            Key::Enter => {
                let parsed = Card::parse(self.input_buf.as_str());
                let out = match parsed {
                    Err(e) => {
                        let mut s = String::from_str("Parse error: ");
                        let msg = e.message();
                        s.append(msg.as_str());
                        self.status_msg = s;
                        KeyOutcome::Continue
                    },
                    Ok(card) => {
                        self.input_mode = InputMode::Normal;
                        match target {
                            CardTarget::Hand => {
                                self.hand.push(card);
                                let mut s = String::from_str("Added ");
                                let stat = card.stat_string();
                                s.append(stat.as_str());
                                s.append(" to hand (");
                                push_decimal(&mut s, self.hand.len() as u64);
                                s.append(" cards)");
                                self.status_msg = s;
                            },
                            CardTarget::Board { row, col, owner } => {
                                self.board.set(row, col, Cell::Occupied { card, owner });
                                let mut s = String::from_str("Placed ");
                                let stat = card.stat_string();
                                s.append(stat.as_str());
                                let place = at_string(" at (", row, col, ")");
                                s.append(place.as_str());
                                self.status_msg = s;
                            },
                        }
                        KeyOutcome::Save
                    },
                };
                self.input_buf = String::new();
                assert(self@ =~= entry_step(a, target, key).0);
                out
            },
            Key::Esc => {
                self.input_mode = InputMode::Normal;
                self.input_buf = String::new();
                self.status_msg = String::from_str("Cancelled.");
                assert(self@ =~= entry_step(a, target, key).0);
                KeyOutcome::Continue
            },
            _ => {
                assert(self@ =~= entry_step(a, target, key).0);
                KeyOutcome::Continue
            },
        }
    }

    /// Handles one key press: Space searches the best move (see `solved`);
    /// every other key acts as `key_step` says. The outcome tells whether to
    /// save the state, leave, or go on.
    pub fn handle_key(&mut self, key: Key, time_budget: Duration) -> (out: KeyOutcome)
        requires
            !key_panics(old(self)@, key),
        ensures
            old(self)@.input_mode is Normal && key == Key::Char(' ') ==> out == KeyOutcome::Continue && solved(
                old(self)@,
                final(self)@,
            ),
            !(old(self)@.input_mode is Normal && key == Key::Char(' ')) ==> (final(self)@, out) == key_step(
                old(self)@,
                key,
            ),
    {
        match self.input_mode {
            InputMode::Normal => {
                if key == Key::Char(' ') {
                    self.solve(time_budget);
                    KeyOutcome::Continue
                } else {
                    self.normal_key(key)
                }
            },
            InputMode::EnteringCard { target } => self.entry_key(target, key),
        }
    }

    /// Whether the key press is one on which the adviser would index the board
    /// off its edge, overflow a counter, or cut a character (see `key_panics`).
    pub fn key_panics_on(&self, key: Key) -> (r: bool)
        ensures
            r == key_panics(self@, key),
    {
        let (r, c) = self.cursor;
        let on_board = r < BOARD_SIZE && c < BOARD_SIZE;
        match self.input_mode {
            InputMode::Normal => match key {
                Key::Right => c == usize::MAX,
                Key::Down => r == usize::MAX,
                Key::Char(ch) => {
                    ((ch == 'b' || ch == 'f') && !on_board) || (ch == 'p' && self.hand.len() > 0 && !on_board) || (
                    ch == ']' && self.hand.len() > 0 && self.selected_hand == usize::MAX)
                },
                _ => false,
            },
            InputMode::EnteringCard { target } => match key {
                Key::Enter => {
                    if Card::parse_panics_on(self.input_buf.as_str()) {
                        true
                    } else {
                        let parsed = Card::parse(self.input_buf.as_str());
                        match target {
                            CardTarget::Board { row, col, .. } => parsed.is_ok() && !(row < BOARD_SIZE && col
                                < BOARD_SIZE),
                            CardTarget::Hand => false,
                        }
                    }
                },
                _ => false,
            },
        }
    }
}

/// The cursor is on the board.
pub open spec fn cursor_on_board(a: AppView) -> bool {
    a.cursor.0 < 4 && a.cursor.1 < 4
}

/// Whatever key is pressed, a cursor on the board stays on the board (keys
/// that search the best move included).
pub proof fn lemma_keys_keep_cursor_on_board(a: AppView, key: Key, b: AppView)
    requires
        cursor_on_board(a),
        a.input_mode is Normal && key == Key::Char(' ') ==> solved(a, b),
        !(a.input_mode is Normal && key == Key::Char(' ')) ==> b == key_step(a, key).0,
    ensures
        cursor_on_board(b),
{
    if a.input_mode is Normal && key == Key::Char(' ') {
        if a.hand.len() > 0 {
            if let Some(m) = b.best {
                crate::board::lemma_empty_positions(a.board);
                assert(empty_positions(a.board).contains((m.row, m.col)));
                assert(crate::board::pos_in_bounds((m.row, m.col)));
            }
        }
    }
}

/// `b` is a state that handling `key` in state `a` can lead to (as
/// `App::handle_key` ensures): searching the best move on Space in normal
/// mode, `key_step` for every other key.
pub open spec fn handled(a: AppView, key: Key, b: AppView) -> bool {
    &&& a.input_mode is Normal && key == Key::Char(' ') ==> solved(a, b)
    &&& !(a.input_mode is Normal && key == Key::Char(' ')) ==> b == key_step(a, key).0
}

/// Along any run of key presses, a cursor that starts on the board stays on
/// the board after every key: `views[i + 1]` is the state after `keys[i]`.
pub proof fn lemma_key_run_keeps_cursor_on_board(views: Seq<AppView>, keys: Seq<Key>)
    requires
        views.len() == keys.len() + 1,
        cursor_on_board(views[0]),
        forall|i: int| 0 <= i < keys.len() ==> #[trigger] handled(views[i], keys[i], views[i + 1]),
    ensures
        forall|i: int| 0 <= i < views.len() ==> #[trigger] cursor_on_board(views[i]),
    decreases keys.len(),
{
    if keys.len() > 0 {
        let n = keys.len() - 1;
        let vs = views.take(n + 1);
        let ks = keys.take(n);
        assert forall|i: int| 0 <= i < ks.len() implies #[trigger] handled(vs[i], ks[i], vs[i + 1]) by {
            assert(handled(views[i], keys[i], views[i + 1]));
        }
        lemma_key_run_keeps_cursor_on_board(vs, ks);
        assert(cursor_on_board(vs[n]));
        assert(handled(views[n], keys[n], views[n + 1]));
        lemma_keys_keep_cursor_on_board(views[n], keys[n], views[n + 1]);
        assert forall|i: int| 0 <= i < views.len() implies #[trigger] cursor_on_board(views[i]) by {
            if i <= n {
                assert(cursor_on_board(vs[i]));
            }
        }
    }
}

/// Enter while a card for the hand is typed: when the text reads as a card,
/// the card joins the end of the hand, normal mode resumes, the message
/// names the card and the new size of the hand, and the state is saved;
/// otherwise hand, board and mode stay and the message gives the parse
/// error. Either way the typed text is cleared.
pub proof fn lemma_enter_adds_card_to_hand(a: AppView)
    requires
        a.input_mode == (InputMode::EnteringCard { target: CardTarget::Hand }),
    ensures
        ({
            let (b, out) = key_step(a, Key::Enter);
            &&& b.input_buf == Seq::<char>::empty()
            &&& match parse_result(a.input_buf) {
                Ok(c) => {
                    &&& b.hand == a.hand.push(c)
                    &&& b.board == a.board
                    &&& b.input_mode == InputMode::Normal
                    &&& b.status_msg == "Added "@ + stat_text(c) + " to hand ("@ + decimal(b.hand.len()) + " cards)"@
                    &&& out == KeyOutcome::Save
                },
                Err(e) => {
                    &&& b.hand == a.hand
                    &&& b.board == a.board
                    &&& b.input_mode == a.input_mode
                    &&& b.status_msg == "Parse error: "@ + error_text(e)
                    &&& out == KeyOutcome::Continue
                },
            }
        }),
{
}

/// Writing cell (`r`, `c`) of a grid changes that cell and no other.
proof fn lemma_put_only(g: Grid, r: int, c: int, x: Cell)
    requires
        well_shaped(g),
        0 <= r < 4,
        0 <= c < 4,
    ensures
        put(g, r, c, x)[r][c] == x,
        forall|rr: int, cc: int|
            0 <= rr < 4 && 0 <= cc < 4 && (rr, cc) != (r, c) ==> #[trigger] put(g, r, c, x)[rr][cc] == g[rr][cc],
{
    assert(g[r].len() == 4);
    assert forall|rr: int, cc: int| 0 <= rr < 4 && 0 <= cc < 4 && (rr, cc) != (r, c) implies #[trigger] put(g, r, c, x)[rr][cc]
        == g[rr][cc] by {
        if rr != r {
            assert(put(g, r, c, x)[rr] == g[rr]);
        }
    }
}

/// The arrow keys in normal mode move the cursor one cell in their
/// direction, and stop at the edge of the board.
pub proof fn lemma_arrow_keys_move_the_cursor(a: AppView)
    requires
        a.input_mode is Normal,
        cursor_on_board(a),
    ensures
        key_step(a, Key::Left).0.cursor == (a.cursor.0, if a.cursor.1 > 0 { (a.cursor.1 - 1) as usize } else { 0 }),
        key_step(a, Key::Right).0.cursor == (a.cursor.0, if a.cursor.1 < 3 { (a.cursor.1 + 1) as usize } else { 3 }),
        key_step(a, Key::Up).0.cursor == (if a.cursor.0 > 0 { (a.cursor.0 - 1) as usize } else { 0 }, a.cursor.1),
        key_step(a, Key::Down).0.cursor == (if a.cursor.0 < 3 { (a.cursor.0 + 1) as usize } else { 3 }, a.cursor.1),
        key_step(a, Key::Left).0.board == a.board,
        key_step(a, Key::Right).0.board == a.board,
        key_step(a, Key::Up).0.board == a.board,
        key_step(a, Key::Down).0.board == a.board,
{
}

/// `b` in normal mode blocks the cell under the cursor (row `cursor.0`,
/// column `cursor.1`) and leaves every other cell as it was.
pub proof fn lemma_block_key_blocks_the_cursor_cell(a: AppView)
    requires
        a.input_mode is Normal,
        well_shaped(a.board),
        cursor_on_board(a),
    ensures
        ({
            let (b, out) = key_step(a, Key::Char('b'));
            &&& b.board[a.cursor.0 as int][a.cursor.1 as int] == Cell::Blocked
            &&& forall|r: int, c: int|
                0 <= r < 4 && 0 <= c < 4 && (r, c) != (a.cursor.0 as int, a.cursor.1 as int) ==> #[trigger] b.board[r][c]
                    == a.board[r][c]
            &&& b.hand == a.hand
            &&& out == KeyOutcome::Save
        }),
{
    lemma_put_only(a.board, a.cursor.0 as int, a.cursor.1 as int, Cell::Blocked);
    assert(key_step(a, Key::Char('b')) == normal_step(a, Key::Char('b')));
}

/// `f` in normal mode gives the card under the cursor to the other player
/// and leaves every other cell as it was; on a cell without a card it
/// changes no cell.
pub proof fn lemma_flip_key_flips_the_cursor_card(a: AppView)
    requires
        a.input_mode is Normal,
        well_shaped(a.board),
        cursor_on_board(a),
    ensures
        ({
            let (b, out) = key_step(a, Key::Char('f'));
            let x = a.board[a.cursor.0 as int][a.cursor.1 as int];
            &&& forall|r: int, c: int|
                0 <= r < 4 && 0 <= c < 4 && (r, c) != (a.cursor.0 as int, a.cursor.1 as int) ==> #[trigger] b.board[r][c]
                    == a.board[r][c]
            &&& x matches Cell::Occupied { card, owner } ==> b.board[a.cursor.0 as int][a.cursor.1 as int] matches Cell::Occupied {
                card: c2,
                owner: o2,
            } && c2 == card && o2 != owner && out == KeyOutcome::Save
            &&& !(x is Occupied) ==> b.board == a.board
            &&& b.hand == a.hand
        }),
{
    let (r, c) = a.cursor;
    assert(key_step(a, Key::Char('f')) == normal_step(a, Key::Char('f')));
    if let Cell::Occupied { card, owner } = a.board[r as int][c as int] {
        lemma_put_only(a.board, r as int, c as int, Cell::Occupied { card, owner: other_owner(owner) });
    }
}

/// `e` in normal mode, then text that reads as a card, then Enter: the card
/// goes, owned by Red, to the cell that was under the cursor when `e` was
/// pressed, and every other cell is as it was.
pub proof fn lemma_enemy_card_goes_under_the_cursor(a: AppView, typed: Seq<char>)
    requires
        a.input_mode is Normal,
        well_shaped(a.board),
        cursor_on_board(a),
        parse_result(typed) is Ok,
    ensures
        ({
            let b = key_step(a, Key::Char('e')).0;
            let (c, out) = key_step(AppView { input_buf: typed, ..b }, Key::Enter);
            let card = parse_result(typed)->Ok_0;
            &&& c.board[a.cursor.0 as int][a.cursor.1 as int] == Cell::Occupied { card, owner: Owner::Red }
            &&& forall|r: int, cc: int|
                0 <= r < 4 && 0 <= cc < 4 && (r, cc) != (a.cursor.0 as int, a.cursor.1 as int) ==> #[trigger] c.board[r][cc]
                    == a.board[r][cc]
            &&& c.input_mode is Normal
            &&& c.hand == a.hand
            &&& out == KeyOutcome::Save
        }),
{
    let card = parse_result(typed)->Ok_0;
    lemma_put_only(a.board, a.cursor.0 as int, a.cursor.1 as int, Cell::Occupied { card, owner: Owner::Red });
    assert(key_step(a, Key::Char('e')) == normal_step(a, Key::Char('e')));
}

/// `p` in normal mode, with a card in hand and an empty cell under the
/// cursor (row `cursor.0`, column `cursor.1`): that cell now holds the
/// selected hand card (the last one when the selection is past the end),
/// owned by Blue; every other cell is as it was; the card leaves the hand;
/// and the state is saved.
pub proof fn lemma_place_key_puts_card_under_cursor(a: AppView)
    requires
        a.input_mode is Normal,
        well_shaped(a.board),
        0 < a.hand.len() <= usize::MAX,
        cursor_on_board(a),
        a.board[a.cursor.0 as int][a.cursor.1 as int] is Empty,
    ensures
        ({
            let (b, out) = key_step(a, Key::Char('p'));
            let idx = if a.selected_hand < a.hand.len() { a.selected_hand as int } else { a.hand.len() - 1 };
            &&& b.board[a.cursor.0 as int][a.cursor.1 as int] == Cell::Occupied { card: a.hand[idx], owner: Owner::Blue }
            &&& forall|r: int, c: int|
                0 <= r < 4 && 0 <= c < 4 && (r, c) != (a.cursor.0 as int, a.cursor.1 as int) ==> #[trigger] b.board[r][c]
                    == a.board[r][c]
            &&& b.hand == a.hand.remove(idx)
            &&& b.cursor == a.cursor
            &&& out == KeyOutcome::Save
        }),
{
    let (r, c) = a.cursor;
    let idx = min_usize(a.selected_hand, (a.hand.len() - 1) as usize);
    let card = a.hand[idx as int];
    let g2 = put(a.board, r as int, c as int, Cell::Occupied { card, owner: Owner::Blue });
    assert(key_step(a, Key::Char('p')) == normal_step(a, Key::Char('p')));
    assert(normal_step(a, Key::Char('p')).0.board == g2);
    assert(a.board[r as int].len() == 4);
    assert forall|rr: int, cc: int|
        0 <= rr < 4 && 0 <= cc < 4 && (rr, cc) != (r as int, c as int) implies #[trigger] g2[rr][cc] == a.board[rr][cc] by {
        if rr != r {
            assert(g2[rr] == a.board[rr]);
        } else {
            assert(a.board[rr].len() == 4);
        }
    }
}

/// What a saved state restores: its board and hand, and its cursor kept on
/// the board.
pub open spec fn restored(board: Grid, hand: Seq<Card>, cursor: (usize, usize)) -> AppView {
    AppView {
        board,
        hand,
        best: None,
        input_mode: InputMode::Normal,
        input_buf: Seq::empty(),
        status_msg: "State restored."@,
        cursor: (min_usize(cursor.0, 3), min_usize(cursor.1, 3)),
        selected_hand: 0,
    }
}

/// Saving and restoring gives back the board, the hand and a cursor that was
/// on the board.
pub proof fn lemma_save_restore(a: AppView, board: Grid, hand: Seq<Card>, cursor: (usize, usize))
    requires
        cursor_on_board(a),
        board == a.board,
        hand == a.hand,
        cursor == a.cursor,
    ensures
        restored(board, hand, cursor).board == a.board,
        restored(board, hand, cursor).hand == a.hand,
        restored(board, hand, cursor).cursor == a.cursor,
        cursor_on_board(restored(board, hand, cursor)),
{
}

} // verus!
