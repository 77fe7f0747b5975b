use vstd::prelude::*;
use crate::text::{push_char, push_hex_byte, hex_byte};

verus! {

/// Arrow directions as bit positions (most significant bit = North, clockwise).
pub const ARROW_N: u8 = 0b10000000;
pub const ARROW_NE: u8 = 0b01000000;
pub const ARROW_E: u8 = 0b00100000;
pub const ARROW_SE: u8 = 0b00010000;
pub const ARROW_S: u8 = 0b00001000;
pub const ARROW_SW: u8 = 0b00000100;
pub const ARROW_W: u8 = 0b00000010;
pub const ARROW_NW: u8 = 0b00000001;

/// The eight directions a card arrow can point to.
#[derive(Clone, Copy, Debug, PartialEq, Eq, Structural)]
pub enum Direction {
    N,
    NE,
    E,
    SE,
    S,
    SW,
    W,
    NW,
}

impl Direction {
    pub const ALL: [Direction; 8] = [
        Direction::N,
        Direction::NE,
        Direction::E,
        Direction::SE,
        Direction::S,
        Direction::SW,
        Direction::W,
        Direction::NW,
    ];

    pub open spec fn row_step(self) -> int {
        match self {
            Direction::N | Direction::NE | Direction::NW => -1,
            Direction::E | Direction::W => 0,
            Direction::SE | Direction::S | Direction::SW => 1,
        }
    }

    pub open spec fn col_step(self) -> int {
        match self {
            Direction::N | Direction::S => 0,
            Direction::NE | Direction::E | Direction::SE => 1,
            Direction::SW | Direction::W | Direction::NW => -1,
        }
    }

    /// Row/col delta when moving in this direction.
    pub fn delta(self) -> (r: (i32, i32))
        ensures
            r.0 == self.row_step(),
            r.1 == self.col_step(),
    {
        match self {
            Direction::N => (-1, 0),
            Direction::NE => (-1, 1),
            Direction::E => (0, 1),
            Direction::SE => (1, 1),
            Direction::S => (1, 0),
            Direction::SW => (1, -1),
            Direction::W => (0, -1),
            Direction::NW => (-1, -1),
        }
    }

    /// The direction pointing the opposite way.
    pub open spec fn reversed(self) -> Direction {
        match self {
            Direction::N => Direction::S,
            Direction::NE => Direction::SW,
            Direction::E => Direction::W,
            Direction::SE => Direction::NW,
            Direction::S => Direction::N,
            Direction::SW => Direction::NE,
            Direction::W => Direction::E,
            Direction::NW => Direction::SE,
        }
    }

    pub fn opposite(self) -> (r: Direction)
        ensures
            r == self.reversed(),
    {
        match self {
            Direction::N => Direction::S,
            Direction::NE => Direction::SW,
            Direction::E => Direction::W,
            Direction::SE => Direction::NW,
            Direction::S => Direction::N,
            Direction::SW => Direction::NE,
            Direction::W => Direction::E,
            Direction::NW => Direction::SE,
        }
    }

    /// The arrow drawn for this direction.
    pub open spec fn symbol(self) -> char {
        match self {
            Direction::N => '↑',
            Direction::NE => '↗',
            Direction::E => '→',
            Direction::SE => '↘',
            Direction::S => '↓',
            Direction::SW => '↙',
            Direction::W => '←',
            Direction::NW => '↖',
        }
    }

    /// The bit of an arrow bitmask that stands for this direction.
    pub open spec fn mask(self) -> u8 {
        match self {
            Direction::N => ARROW_N,
            Direction::NE => ARROW_NE,
            Direction::E => ARROW_E,
            Direction::SE => ARROW_SE,
            Direction::S => ARROW_S,
            Direction::SW => ARROW_SW,
            Direction::W => ARROW_W,
            Direction::NW => ARROW_NW,
        }
    }

    pub fn arrow_bit(self) -> (r: u8)
        ensures
            r == self.mask(),
    {
        match self {
            Direction::N => ARROW_N,
            Direction::NE => ARROW_NE,
            Direction::E => ARROW_E,
            Direction::SE => ARROW_SE,
            Direction::S => ARROW_S,
            Direction::SW => ARROW_SW,
            Direction::W => ARROW_W,
            Direction::NW => ARROW_NW,
        }
    }
}

/// Turning around twice faces the same way, and the opposite direction steps
/// the opposite way.
pub proof fn lemma_opposite(d: Direction)
    ensures
        d.reversed().reversed() == d,
        d.reversed().row_step() == -d.row_step(),
        d.reversed().col_step() == -d.col_step(),
        d.reversed() != d,
{
}

/// The `k`-th direction of `Direction::ALL`, clockwise from North.
pub open spec fn dir_at(k: int) -> Direction {
    if k == 0 { Direction::N }
    else if k == 1 { Direction::NE }
    else if k == 2 { Direction::E }
    else if k == 3 { Direction::SE }
    else if k == 4 { Direction::S }
    else if k == 5 { Direction::SW }
    else if k == 6 { Direction::W }
    else { Direction::NW }
}

/// The `k`-th entry of `Direction::ALL`.
pub(crate) fn direction_at(k: usize) -> (d: Direction)
    requires
        k < 8,
    ensures
        d == dir_at(k as int),
{
    Direction::ALL[k]
}

#[derive(Clone, Copy, Debug, PartialEq, Eq, Structural)]
pub enum CardType {
    /// `P`: attacks physical defence.
    Physical,
    /// `M`: attacks magic defence.
    Magic,
    /// `X`: attacks whichever defence is lower.
    Flexible,
    /// `A`: attacks the lowest of physical defence, magic defence and attack.
    Assault,
}

/// A Tetra Master card. Stats are the hex digits visible on screen (0–15).
#[derive(Clone, Copy, Debug, PartialEq, Eq, Structural)]
pub struct Card {
    pub attack: u8,
    pub card_type: CardType,
    pub phys_def: u8,
    pub mag_def: u8,
    pub arrows: u8,
}

pub open spec fn min_u8(a: u8, b: u8) -> u8 {
    if a <= b { a } else { b }
}

impl Card {
    pub fn new(attack: u8, card_type: CardType, phys_def: u8, mag_def: u8, arrows: u8) -> (c: Self)
        ensures
            c == (Card { attack, card_type, phys_def, mag_def, arrows }),
    {
        Self { attack, card_type, phys_def, mag_def, arrows }
    }

    /// Whether the card has an arrow pointing in direction `d`.
    pub open spec fn points(self, d: Direction) -> bool {
        self.arrows & d.mask() != 0
    }

    pub fn has_arrow(self, dir: Direction) -> (r: bool)
        ensures
            r == self.points(dir),
    {
        self.arrows & dir.arrow_bit() != 0
    }

    /// The defence digit this card opposes to an attacker of the given type.
    pub open spec fn defense_against(self, attacker_type: CardType) -> u8 {
        match attacker_type {
            CardType::Physical => self.phys_def,
            CardType::Magic => self.mag_def,
            CardType::Flexible => min_u8(self.phys_def, self.mag_def),
            CardType::Assault => min_u8(min_u8(self.phys_def, self.mag_def), self.attack),
        }
    }

    /// Whether this card, attacking, wins its battle against `defender`:
    /// the expected attack roll (digit * 16 + 7.5) must be at least the
    /// expected roll of the defence digit chosen by the attacker's type,
    /// which holds exactly when the attack digit is at least that digit.
    pub open spec fn beats(self, defender: Card) -> bool {
        self.attack >= defender.defense_against(self.card_type)
    }

    /// The defence digit against an attacker of the given type.
    pub fn defense_stat(&self, attacker_type: CardType) -> (r: u8)
        ensures
            r == self.defense_against(attacker_type),
    {
        let p = self.phys_def;
        let m = self.mag_def;
        let low = if p <= m { p } else { m };
        match attacker_type {
            CardType::Physical => p,
            CardType::Magic => m,
            CardType::Flexible => low,
            CardType::Assault => if low <= self.attack { low } else { self.attack },
        }
    }

    /// Whether this card, attacking `defender`, flips it.
    pub fn wins_against(self, defender: Card) -> (r: bool)
        ensures
            r == self.beats(defender),
    {
        self.attack >= defender.defense_stat(self.card_type)
    }
}

/// The letter that names a card type.
pub open spec fn type_letter(t: CardType) -> char {
    match t {
        CardType::Physical => 'P',
        CardType::Magic => 'M',
        CardType::Flexible => 'X',
        CardType::Assault => 'A',
    }
}

/// `arrows` shown as the symbol `ch` when it holds `bit`, else nothing.
pub open spec fn symbol_if(arrows: u8, bit: u8, ch: char) -> Seq<char> {
    if arrows & bit != 0 { seq![ch] } else { Seq::empty() }
}

/// The arrow symbols of a bitmask, in the order ↖ ↑ ↗ ← → ↙ ↓ ↘.
pub open spec fn arrow_symbols(arrows: u8) -> Seq<char> {
    symbol_if(arrows, ARROW_NW, '↖') + symbol_if(arrows, ARROW_N, '↑') + symbol_if(arrows, ARROW_NE, '↗')
        + symbol_if(arrows, ARROW_W, '←') + symbol_if(arrows, ARROW_E, '→') + symbol_if(arrows, ARROW_SW, '↙')
        + symbol_if(arrows, ARROW_S, '↓') + symbol_if(arrows, ARROW_SE, '↘')
}

/// The stats of a card as shown on screen, e.g. `2P34`: attack, type letter,
/// physical and magic defence, each stat in upper-case hexadecimal.
pub open spec fn stat_text(c: Card) -> Seq<char> {
    hex_byte(c.attack) + seq![type_letter(c.card_type)] + hex_byte(c.phys_def) + hex_byte(c.mag_def)
}

/// Appends `ch` when `arrows` holds `bit`.
pub(crate) fn push_symbol_if(s: &mut String, arrows: u8, bit: u8, ch: char)
    ensures
        final(s)@ == old(s)@ + symbol_if(arrows, bit, ch),
{
    if arrows & bit != 0 {
        push_char(s, ch);
    }
    assert(final(s)@ =~= old(s)@ + symbol_if(arrows, bit, ch));
}

impl Card {
    /// The arrows of the card as symbols, e.g. `↑→↘`.
    pub fn arrow_display(self) -> (r: String)
        ensures
            r@ == arrow_symbols(self.arrows),
    {
        let a = self.arrows;
        let mut s = String::new();
        push_symbol_if(&mut s, a, ARROW_NW, '↖');
        push_symbol_if(&mut s, a, ARROW_N, '↑');
        push_symbol_if(&mut s, a, ARROW_NE, '↗');
        push_symbol_if(&mut s, a, ARROW_W, '←');
        push_symbol_if(&mut s, a, ARROW_E, '→');
        push_symbol_if(&mut s, a, ARROW_SW, '↙');
        push_symbol_if(&mut s, a, ARROW_S, '↓');
        push_symbol_if(&mut s, a, ARROW_SE, '↘');
        assert(s@ =~= arrow_symbols(a));
        s
    }

    /// The stats of the card, e.g. `2P34`.
    pub fn stat_string(self) -> (r: String)
        ensures
            r@ == stat_text(self),
    {
        let t = match self.card_type {
            CardType::Physical => 'P',
            CardType::Magic => 'M',
            CardType::Flexible => 'X',
            CardType::Assault => 'A',
        };
        let mut s = String::new();
        push_hex_byte(&mut s, self.attack);
        push_char(&mut s, t);
        push_hex_byte(&mut s, self.phys_def);
        push_hex_byte(&mut s, self.mag_def);
        assert(s@ =~= stat_text(self));
        s
    }
}

/// Where the arrow of a direction sits in the 3×3 grid around a card, read
/// row by row from the top left: the row and column are one step from the
/// centre in the direction's own steps.
pub open spec fn reading_rank(d: Direction) -> int {
    (d.row_step() + 1) * 3 + (d.col_step() + 1)
}

/// The `k`-th direction in reading order.
spec fn reading_dir(k: int) -> Direction {
    if k == 0 { Direction::NW }
    else if k == 1 { Direction::N }
    else if k == 2 { Direction::NE }
    else if k == 3 { Direction::W }
    else if k == 4 { Direction::E }
    else if k == 5 { Direction::SW }
    else if k == 6 { Direction::S }
    else { Direction::SE }
}

/// The place in reading order of the direction whose arrow is `c`; 8 for a
/// character that is no arrow.
spec fn symbol_index(c: char) -> int {
    if c == '↖' { 0 }
    else if c == '↑' { 1 }
    else if c == '↗' { 2 }
    else if c == '←' { 3 }
    else if c == '→' { 4 }
    else if c == '↙' { 5 }
    else if c == '↓' { 6 }
    else if c == '↘' { 7 }
    else { 8 }
}

/// The arrows of the first `k` directions in reading order that `arrows`
/// holds.
spec fn shown_upto(arrows: u8, k: nat) -> Seq<char>
    decreases k,
{
    if k == 0 {
        Seq::empty()
    } else {
        shown_upto(arrows, (k - 1) as nat) + symbol_if(arrows, reading_dir(k - 1).mask(), reading_dir(k - 1).symbol())
    }
}

proof fn lemma_reading_tables()
    ensures
        forall|d: Direction| 0 <= #[trigger] symbol_index(d.symbol()) < 8,
        forall|d: Direction| #[trigger] reading_dir(symbol_index(d.symbol())) == d,
        forall|k: int| 0 <= k < 8 ==> #[trigger] symbol_index(reading_dir(k).symbol()) == k,
        forall|c: char| #[trigger] symbol_index(c) < 8 ==> reading_dir(symbol_index(c)).symbol() == c,
        forall|d1: Direction, d2: Direction|
            #[trigger] symbol_index(d1.symbol()) < #[trigger] symbol_index(d2.symbol()) ==> reading_rank(d1) < reading_rank(d2),
{
}

proof fn lemma_shown_upto(arrows: u8, k: nat)
    requires
        k <= 8,
    ensures
        forall|i: int| 0 <= i < shown_upto(arrows, k).len() ==> #[trigger] symbol_index(shown_upto(arrows, k)[i]) < k,
        forall|i: int, j: int|
            0 <= i < j < shown_upto(arrows, k).len() ==> #[trigger] symbol_index(shown_upto(arrows, k)[i])
                < #[trigger] symbol_index(shown_upto(arrows, k)[j]),
        forall|d: Direction|
            #[trigger] shown_upto(arrows, k).contains(d.symbol()) <==> symbol_index(d.symbol()) < k && arrows & d.mask()
                != 0,
    decreases k,
{
    lemma_reading_tables();
    if k > 0 {
        lemma_shown_upto(arrows, (k - 1) as nat);
        let prev = shown_upto(arrows, (k - 1) as nat);
        let dk = reading_dir(k - 1);
        let s = shown_upto(arrows, k);
        assert(symbol_index(dk.symbol()) == k - 1);
        if arrows & dk.mask() != 0 {
            assert(s =~= prev.push(dk.symbol()));
        } else {
            assert(s =~= prev);
        }
        assert forall|i: int| 0 <= i < s.len() implies #[trigger] symbol_index(s[i]) < k by {
            if i < prev.len() {
                assert(s[i] == prev[i]);
            }
        }
        assert forall|i: int, j: int| 0 <= i < j < s.len() implies #[trigger] symbol_index(s[i]) < #[trigger] symbol_index(s[j]) by {
            assert(s[i] == prev[i]);
            if j < prev.len() {
                assert(s[j] == prev[j]);
            }
        }
        assert forall|d: Direction| #[trigger] s.contains(d.symbol()) <==> symbol_index(d.symbol()) < k && arrows & d.mask() != 0 by {
            let c = d.symbol();
            if s.contains(c) {
                let i = choose|i: int| 0 <= i < s.len() && s[i] == c;
                if i < prev.len() {
                    assert(prev[i] == c);
                    assert(prev.contains(c));
                } else {
                    assert(c == dk.symbol());
                    assert(reading_dir(symbol_index(c)) == d);
                }
            }
            if symbol_index(c) < k && arrows & d.mask() != 0 {
                if symbol_index(c) < k - 1 {
                    assert(prev.contains(c));
                    let i = choose|i: int| 0 <= i < prev.len() && prev[i] == c;
                    assert(s[i] == c);
                } else {
                    assert(reading_dir(symbol_index(c)) == d);
                    assert(d == dk);
                    assert(s[s.len() - 1] == c);
                }
            }
        }
    }
}

/// The arrow symbols of a card: the arrow of direction `d` appears exactly
/// when the card points in direction `d`, no other character appears, and
/// the arrows come in reading order (↖ ↑ ↗ ← → ↙ ↓ ↘).
pub proof fn lemma_arrow_symbols(arrows: u8)
    ensures
        forall|d: Direction| #[trigger] arrow_symbols(arrows).contains(d.symbol()) <==> arrows & d.mask() != 0,
        forall|i: int|
            #![trigger arrow_symbols(arrows)[i]]
            0 <= i < arrow_symbols(arrows).len() ==> exists|d: Direction| #[trigger] d.symbol() == arrow_symbols(arrows)[i],
        forall|i: int, j: int, d1: Direction, d2: Direction|
            #![trigger arrow_symbols(arrows)[i], arrow_symbols(arrows)[j], d1.symbol(), d2.symbol()]
            0 <= i < j < arrow_symbols(arrows).len() && arrow_symbols(arrows)[i] == d1.symbol()
                && arrow_symbols(arrows)[j] == d2.symbol() ==> reading_rank(d1) < reading_rank(d2),
{
    lemma_reading_tables();
    lemma_shown_upto(arrows, 8);
    assert(shown_upto(arrows, 0) =~= Seq::<char>::empty());
    assert(shown_upto(arrows, 1) =~= symbol_if(arrows, ARROW_NW, '↖'));
    assert(arrow_symbols(arrows) == shown_upto(arrows, 8)) by {
        reveal_with_fuel(shown_upto, 8);
    }
    let s = arrow_symbols(arrows);
    assert forall|i: int| #![trigger s[i]] 0 <= i < s.len() implies exists|d: Direction| #[trigger] d.symbol() == s[i] by {
        assert(symbol_index(s[i]) < 8);
        assert(reading_dir(symbol_index(s[i])).symbol() == s[i]);
    }
    assert forall|i: int, j: int, d1: Direction, d2: Direction|
        #![trigger s[i], s[j], d1.symbol(), d2.symbol()]
        0 <= i < j < s.len() && s[i] == d1.symbol() && s[j] == d2.symbol() implies reading_rank(d1) < reading_rank(d2) by {
        assert(symbol_index(s[i]) < symbol_index(s[j]));
    }
}

} // verus!
